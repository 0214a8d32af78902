//! Names in the directory of the tables.
use vstd::prelude::*;
use vstd::string::*;
use crate::storage::compactionmanager::path;
use crate::text;

verus! {

/// The level that a directory is for, by its name; 0 where the name says none.
pub open spec fn level_in(name: Seq<char>) -> u32 {
    if text::has_prefix(name, "level-"@) {
        match text::u64_value(name.skip(6)) {
            Some(n) => if n <= u32::MAX {
                n as u32
            } else {
                0
            },
            None => 0,
        }
    } else {
        0
    }
}

/// The level that a directory is for, by its name.
pub fn level_from_dir(name: &str) -> (level: u32)
    ensures
        level == level_in(name@),
{
    proof {
        reveal_strlit("level-");
    }
    let chars: Vec<char> = text::chars_of(name);
    let head: Vec<char> = text::chars_of("level-");
    if !text::starts_with(chars.as_slice(), head.as_slice()) {
        return 0;
    }
    let mut rest: Vec<char> = Vec::new();
    let mut i: usize = 6;
    assert(rest@ =~= name@.skip(6).take(0));
    while i < chars.len()
        invariant
            6 <= i <= chars@.len(),
            chars@ == name@,
            rest@ == name@.skip(6).take(i - 6),
        decreases chars@.len() - i,
    {
        rest.push(chars[i]);
        assert(rest@ =~= name@.skip(6).take(i + 1 - 6));
        i = i + 1;
    }
    assert(rest@ =~= name@.skip(6));
    match text::parse_u64(rest.as_slice()) {
        Some(n) => if n <= u32::MAX as u64 {
            n as u32
        } else {
            0
        },
        None => 0,
    }
}

/// Whether a file is a table, by its name: it has the extension `dat`.
pub fn is_sstable_file(name: &str) -> (r: bool)
    ensures
        r == (text::has_suffix(name@, ".dat"@) && name@.len() > 4),
{
    let chars: Vec<char> = text::chars_of(name);
    let tail: Vec<char> = text::chars_of(".dat");
    text::ends_with(chars.as_slice(), tail.as_slice()) && chars.len() > 4
}

/// The level of a table's directory is read off its name.
pub proof fn law_level_reads_back(level: u32)
    ensures
        level_in(path::level_name(level)) == level,
{
    reveal_strlit("level-");
    let digits = text::decimal(level as nat);
    text::law_prefix_and_suffix("level-"@, digits, digits);
    text::law_decimal_reads_back(level as nat);
    assert(path::level_name(level).skip(6) =~= digits);
}

} // verus!
