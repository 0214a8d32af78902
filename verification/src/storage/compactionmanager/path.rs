//! Paths of tables, as text with `/` between the parts.
use vstd::prelude::*;
use vstd::string::*;
use crate::text;

verus! {

/// A path ends with `/` or with the part `.`, and is more than that.
pub open spec fn has_tail(path: Seq<char>) -> bool {
    path.len() > 1 && (path.last() == '/' || (path.last() == '.' && path[path.len() - 2] == '/'))
}

/// A path without the `/` and the parts `.` at its end; the root stays.
pub open spec fn trimmed(path: Seq<char>) -> Seq<char>
    decreases path.len(),
{
    if has_tail(path) {
        trimmed(path.drop_last())
    } else {
        path
    }
}

/// The place of the last `/`, or -1.
pub open spec fn last_slash(path: Seq<char>) -> int
    decreases path.len(),
{
    if path.len() == 0 {
        -1
    } else if path.last() == '/' {
        path.len() - 1
    } else {
        last_slash(path.drop_last())
    }
}

/// The directory that a path is in. The root and the empty path are in none; a path
/// of one part is in the empty one.
pub open spec fn parent(path: Seq<char>) -> Option<Seq<char>> {
    let t = trimmed(path);
    let at = last_slash(t);
    if t.len() == 0 || t == seq!['/'] {
        None
    } else if at < 0 {
        Some(seq![])
    } else if at == 0 {
        Some(seq!['/'])
    } else {
        Some(trimmed(t.take(at)))
    }
}

/// `name` in the directory `dir`.
pub open spec fn join(dir: Seq<char>, name: Seq<char>) -> Seq<char> {
    if dir.len() == 0 || dir.last() == '/' {
        dir + name
    } else {
        dir.push('/') + name
    }
}

/// The name of a level's directory.
pub open spec fn level_name(level: u32) -> Seq<char> {
    "level-"@ + text::decimal(level as nat)
}

/// The name of a table's file.
pub open spec fn table_name(file_id: u64) -> Seq<char> {
    "sstable-"@ + text::decimal(file_id as nat) + ".dat"@
}

/// Where a table goes that is made from the table at `base`: into the directory of
/// `level` beside that of `base`.
pub open spec fn output_path(base: Seq<char>, level: u32, file_id: u64) -> Seq<char> {
    let dir = match parent(base) {
        None => level_name(level),
        Some(p) => match parent(p) {
            None => level_name(level),
            Some(root) => join(root, level_name(level)),
        },
    };
    join(dir, table_name(file_id))
}

/// Takes the `/` and the parts `.` off the end of a path.
fn trim(path: &mut Vec<char>)
    ensures
        final(path)@ == trimmed(old(path)@),
{
    while path.len() > 1 && (path[path.len() - 1] == '/' || (path[path.len() - 1] == '.'
        && path[path.len() - 2] == '/'))
        invariant
            trimmed(path@) == trimmed(old(path)@),
        decreases path@.len(),
    {
        let ghost before = path@;
        path.pop();
        assert(path@ =~= before.drop_last());
    }
}

/// The place of the last `/`, counted from one; 0 where there is none.
fn find_last_slash(path: &Vec<char>) -> (n: usize)
    ensures
        n == last_slash(path@) + 1,
        n <= path@.len(),
{
    let mut n: usize = path.len();
    assert(path@.take(n as int) =~= path@);
    while n > 0
        invariant
            n <= path@.len(),
            last_slash(path@) == last_slash(path@.take(n as int)),
        decreases n,
    {
        assert(path@.take(n as int).last() == path@[n - 1]);
        if path[n - 1] == '/' {
            return n;
        }
        assert(path@.take(n as int).drop_last() =~= path@.take(n - 1));
        n = n - 1;
    }
    n
}

/// The directory that a path is in.
fn parent_of(path: &Vec<char>) -> (r: Option<Vec<char>>)
    ensures
        match r {
            Some(p) => parent(path@) == Some(p@),
            None => parent(path@) is None,
        },
{
    let mut t: Vec<char> = path.clone();
    assert(t@ =~= path@);
    trim(&mut t);
    if t.len() == 0 {
        return None;
    }
    if t.len() == 1 && t[0] == '/' {
        assert(t@ =~= seq!['/']);
        return None;
    }
    let n: usize = find_last_slash(&t);
    assert(t@ != seq!['/']) by {
        if t@ == seq!['/'] {
            assert(t@.len() == 1 && t@[0] == '/');
        }
    }
    if n == 0 {
        let out: Vec<char> = Vec::new();
        assert(out@ =~= seq![]);
        return Some(out);
    }
    if n == 1 {
        let mut out: Vec<char> = Vec::new();
        out.push('/');
        assert(out@ =~= seq!['/']);
        return Some(out);
    }
    let ghost all = t@;
    t.truncate(n - 1);
    assert(t@ =~= all.take(n - 1));
    trim(&mut t);
    Some(t)
}

/// The last part of a path, unless it is `.` or `..`; the root and the empty path have
/// none.
pub open spec fn file_name(path: Seq<char>) -> Option<Seq<char>> {
    let t = trimmed(path);
    let name = t.skip(last_slash(t) + 1);
    if name.len() == 0 || name == seq!['.'] || name == seq!['.', '.'] {
        None
    } else {
        Some(name)
    }
}

/// The last part of a path.
pub fn file_name_of(path: &str) -> (r: Option<String>)
    ensures
        match r {
            Some(name) => file_name(path@) == Some(name@),
            None => file_name(path@) is None,
        },
{
    let mut t: Vec<char> = text::chars_of(path);
    trim(&mut t);
    let n: usize = find_last_slash(&t);
    let mut name: Vec<char> = Vec::new();
    let mut i: usize = n;
    assert(name@ =~= t@.skip(n as int).take(0));
    while i < t.len()
        invariant
            n <= i <= t@.len(),
            name@ == t@.skip(n as int).take(i - n),
        decreases t@.len() - i,
    {
        let ghost before = name@;
        name.push(t[i]);
        assert(name@ =~= t@.skip(n as int).take(i + 1 - n));
        i = i + 1;
    }
    assert(name@ =~= t@.skip(n as int));
    let none = name.len() == 0 || (name.len() == 1 && name[0] == '.') || (name.len() == 2
        && name[0] == '.' && name[1] == '.');
    proof {
        if name@.len() == 1 && name@[0] == '.' {
            assert(name@ =~= seq!['.']);
        }
        if name@.len() == 2 && name@[0] == '.' && name@[1] == '.' {
            assert(name@ =~= seq!['.', '.']);
        }
        if name@ == seq!['.'] {
            assert(name@[0] == seq!['.'][0]);
        }
        if name@ == seq!['.', '.'] {
            assert(name@[0] == seq!['.', '.'][0] && name@[1] == seq!['.', '.'][1]);
        }
    }
    if none {
        None
    } else {
        Some(text::string_of(name.as_slice()))
    }
}

/// `name` in the directory `dir`.
pub fn join_path(dir: &str, name: &str) -> (out: String)
    ensures
        out@ == join(dir@, name@),
{
    let chars: Vec<char> = text::chars_of(dir);
    let mut out = dir.to_owned();
    if chars.len() > 0 && chars[chars.len() - 1] != '/' {
        out.push('/');
    }
    out.append(name);
    out
}

/// The name of a level's directory.
pub fn level_dir_name(level: u32) -> (out: String)
    ensures
        out@ == level_name(level),
{
    let mut out = "level-".to_owned();
    text::push_decimal(&mut out, level as u64);
    out
}

/// The name of a table's file.
pub fn table_file_name(file_id: u64) -> (out: String)
    ensures
        out@ == table_name(file_id),
{
    let mut out = "sstable-".to_owned();
    text::push_decimal(&mut out, file_id);
    out.append(".dat");
    out
}

/// Where a table goes that is made from the table at `base_file_path`.
pub fn build_compaction_output_path(base_file_path: &str, level: u32, file_id: u64) -> (out: String)
    ensures
        out@ == output_path(base_file_path@, level, file_id),
{
    let name = level_dir_name(level);
    let base: Vec<char> = text::chars_of(base_file_path);
    let dir: String = match parent_of(&base) {
        None => name,
        Some(p) => match parent_of(&p) {
            None => name,
            Some(root) => {
                let root: String = text::string_of(root.as_slice());
                join_path(root.as_str(), name.as_str())
            },
        },
    };
    let file = table_file_name(file_id);
    join_path(dir.as_str(), file.as_str())
}

/// The path of a flushed table under the table directory.
pub open spec fn flushed_path(dir: Seq<char>, file_id: u64) -> Seq<char> {
    join(dir, "level-0/sstable-"@ + text::decimal(file_id as nat) + ".dat"@)
}

/// The path of a flushed table under the table directory.
pub fn flush_path(dir: &str, file_id: u64) -> (out: String)
    ensures
        out@ == flushed_path(dir@, file_id),
{
    let mut name = "level-0/sstable-".to_owned();
    text::push_decimal(&mut name, file_id);
    name.append(".dat");
    join_path(dir, name.as_str())
}

/// The text has no `/` in it.
pub open spec fn no_slash(s: Seq<char>) -> bool {
    forall|i: int| 0 <= i < s.len() ==> #[trigger] s[i] != '/'
}

/// A name that a file in a directory can have.
pub open spec fn plain_name(name: Seq<char>) -> bool {
    name.len() > 0 && no_slash(name) && name != seq!['.'] && name != seq!['.', '.']
}

/// A directory that is written without `/` or the part `.` at its end; the empty one is
/// written so too.
pub open spec fn plain_dir(dir: Seq<char>) -> bool {
    dir.len() == 0 || (dir.last() != '/' && !has_tail(dir))
}

proof fn lemma_last_slash(dir: Seq<char>, name: Seq<char>)
    requires
        no_slash(name),
    ensures
        last_slash(name) == -1,
        last_slash(dir.push('/') + name) == dir.len(),
    decreases name.len(),
{
    let whole = dir.push('/') + name;
    if name.len() == 0 {
        assert(whole =~= dir.push('/'));
    } else {
        let front = name.drop_last();
        assert forall|i: int| 0 <= i < front.len() implies #[trigger] front[i] != '/' by {
            assert(front[i] == name[i]);
        }
        lemma_last_slash(dir, front);
        assert(name[name.len() - 1] != '/');
        assert(whole.last() == name.last());
        assert(whole.drop_last() =~= dir.push('/') + front);
    }
}

/// The name of a file in a directory is the last part of its path, and the directory is
/// what the path is in.
pub proof fn law_joined_path(dir: Seq<char>, name: Seq<char>)
    requires
        plain_dir(dir),
        plain_name(name),
    ensures
        file_name(join(dir, name)) == Some(name),
        parent(join(dir, name)) == Some(dir),
{
    let whole = join(dir, name);
    lemma_last_slash(dir, name);
    let n = name.len() - 1;
    assert(name[n] == name.last());
    assert(whole.last() == name.last());
    if name.last() == '.' {
        if n == 0 {
            assert(name =~= seq!['.']);
        } else {
            assert(whole[whole.len() - 2] == name[n - 1]);
        }
    }
    assert(!has_tail(whole));
    if dir.len() == 0 {
        assert(whole =~= name);
        assert(whole.skip(0) =~= name);
        assert(whole != seq!['/']) by {
            if whole == seq!['/'] {
                assert(whole[0] == '/');
            }
        }
    } else {
        assert(whole == dir.push('/') + name);
        assert(whole.skip(dir.len() as int + 1) =~= name);
        assert(whole.take(dir.len() as int) =~= dir);
        assert(whole.len() > 1);
        assert(whole != seq!['/']);
    }
}

/// Where a table is: in the directory of its level.
pub open spec fn table_path(root: Seq<char>, level: u32, file_id: u64) -> Seq<char> {
    join(join(root, level_name(level)), table_name(file_id))
}

proof fn lemma_names(level: u32, file_id: u64)
    ensures
        plain_name(level_name(level)),
        plain_name(table_name(file_id)),
        '0' <= level_name(level).last() <= '9',
        level_name(level).len() > 1,
{
    reveal_strlit("level-");
    reveal_strlit("sstable-");
    reveal_strlit(".dat");
    let (a, b) = (text::decimal(level as nat), text::decimal(file_id as nat));
    text::law_decimal_reads_back(level as nat);
    text::law_decimal_reads_back(file_id as nat);
    let (l, t) = (level_name(level), table_name(file_id));
    assert forall|i: int| 0 <= i < l.len() implies #[trigger] l[i] != '/' by {
        if i >= 6 {
            assert(l[i] == a[i - 6]);
        } else {
            assert(l[i] == "level-"@[i]);
        }
    }
    assert(l.last() == a[a.len() - 1]);
    assert forall|i: int| 0 <= i < t.len() implies #[trigger] t[i] != '/' by {
        if i < 8 {
            assert(t[i] == "sstable-"@[i]);
        } else if i < 8 + b.len() {
            assert(t[i] == b[i - 8]);
        } else {
            assert(t[i] == ".dat"@[i - 8 - b.len()]);
        }
    }
}

proof fn lemma_level_dir(root: Seq<char>, level: u32)
    requires
        plain_dir(root),
    ensures
        plain_dir(join(root, level_name(level))),
        join(root, level_name(level)).len() > 0,
{
    lemma_names(level, 0);
    let d = join(root, level_name(level));
    assert(d.last() == level_name(level).last());
}

/// A table that is made of others goes beside them: into the directory of its own level,
/// under the same root, and is named after its own number.
pub proof fn law_output_beside_inputs(
    root: Seq<char>,
    level: u32,
    file_id: u64,
    to: u32,
    new_id: u64,
)
    requires
        plain_dir(root),
    ensures
        output_path(table_path(root, level, file_id), to, new_id) == table_path(root, to, new_id),
{
    lemma_names(level, file_id);
    lemma_level_dir(root, level);
    let dir = join(root, level_name(level));
    law_joined_path(dir, table_name(file_id));
    law_joined_path(root, level_name(level));
}

/// A flushed table goes into the directory of level 0.
pub proof fn law_flushed_into_level_zero(root: Seq<char>, file_id: u64)
    requires
        plain_dir(root),
    ensures
        flushed_path(root, file_id) == table_path(root, 0, file_id),
{
    lemma_names(0, file_id);
    lemma_level_dir(root, 0);
    reveal_strlit("level-0/sstable-");
    reveal_strlit("level-");
    reveal_strlit("sstable-");
    text::law_decimal_digits(0, 0);
    let digits = text::decimal(file_id as nat);
    assert(level_name(0) =~= "level-"@ + seq!['0']);
    assert("level-0/sstable-"@ =~= "level-"@ + seq!['0', '/'] + "sstable-"@);
    assert(flushed_path(root, file_id) =~= table_path(root, 0, file_id));
}

/// No two tables are at the same path.
pub proof fn law_tables_have_own_paths(
    root: Seq<char>,
    level: u32,
    file_id: u64,
    other_level: u32,
    other_id: u64,
)
    requires
        plain_dir(root),
        table_path(root, level, file_id) == table_path(root, other_level, other_id),
    ensures
        level == other_level,
        file_id == other_id,
{
    reveal_strlit("level-");
    reveal_strlit("sstable-");
    reveal_strlit(".dat");
    lemma_names(level, file_id);
    lemma_names(other_level, other_id);
    lemma_level_dir(root, level);
    lemma_level_dir(root, other_level);
    law_joined_path(join(root, level_name(level)), table_name(file_id));
    law_joined_path(join(root, level_name(other_level)), table_name(other_id));
    law_joined_path(root, level_name(level));
    law_joined_path(root, level_name(other_level));
    let (a, b) = (level_name(level), level_name(other_level));
    assert(a == b);
    assert(text::decimal(level as nat) =~= a.skip(6));
    assert(text::decimal(other_level as nat) =~= b.skip(6));
    text::law_decimal_distinct(level as nat, other_level as nat);
    let (x, y) = (table_name(file_id), table_name(other_id));
    assert(x == y);
    assert(text::decimal(file_id as nat) =~= x.subrange(8, x.len() - 4));
    assert(text::decimal(other_id as nat) =~= y.subrange(8, y.len() - 4));
    text::law_decimal_distinct(file_id as nat, other_id as nat);
}

/// So many `/`.
pub open spec fn slashes(n: nat) -> Seq<char> {
    Seq::new(n, |i: int| '/')
}

proof fn lemma_trimmed_slashes(path: Seq<char>, n: nat)
    requires
        plain_dir(path),
        path.len() > 0,
    ensures
        trimmed(path + slashes(n)) == path,
    decreases n,
{
    let whole = path + slashes(n);
    if n > 0 {
        let m = (n - 1) as nat;
        assert(whole.last() == '/');
        assert(whole.drop_last() =~= path + slashes(m));
        lemma_trimmed_slashes(path, m);
    } else {
        assert(whole =~= path);
    }
}

/// More `/` than one between a directory and a name, and any at the end, make no
/// difference.
pub proof fn law_more_slashes(dir: Seq<char>, name: Seq<char>, between: nat, behind: nat)
    requires
        plain_dir(dir),
        dir.len() > 0,
        plain_name(name),
        between > 0,
    ensures
        file_name(dir + slashes(between) + name + slashes(behind)) == Some(name),
        parent(dir + slashes(between) + name + slashes(behind)) == Some(dir),
{
    let m = (between - 1) as nat;
    let front = dir + slashes(m);
    let whole = dir + slashes(between) + name;
    let n = name.len() - 1;
    assert(slashes(between) =~= slashes(m).push('/'));
    assert(whole =~= front.push('/') + name);
    lemma_last_slash(front, name);
    assert(name[n] == name.last());
    assert(whole.last() == name.last());
    if name.last() == '.' {
        if n == 0 {
            assert(name =~= seq!['.']);
        } else {
            assert(whole[whole.len() - 2] == name[n - 1]);
        }
    }
    assert(plain_dir(whole));
    lemma_trimmed_slashes(whole, behind);
    assert(whole.skip(front.len() as int + 1) =~= name);
    assert(whole.take(front.len() as int) =~= front);
    lemma_trimmed_slashes(dir, m);
    assert(whole != seq!['/']) by {
        if whole == seq!['/'] {
            assert(whole.len() == 1);
        }
    }
}

/// A path that ends with the part `..` has no file name, and neither have the root and the
/// empty path.
pub proof fn law_no_file_name(dir: Seq<char>)
    requires
        plain_dir(dir),
    ensures
        file_name(join(dir, seq!['.', '.'])) is None,
        file_name(seq!['/']) is None,
        file_name(Seq::<char>::empty()) is None,
        parent(seq!['/']) is None,
        parent(Seq::<char>::empty()) is None,
{
    let up = seq!['.', '.'];
    let whole = join(dir, up);
    lemma_last_slash(dir, up);
    assert(whole.last() == '.');
    assert(whole[whole.len() - 2] == '.');
    assert(!has_tail(whole));
    if dir.len() == 0 {
        assert(whole =~= up);
        assert(whole.skip(0) =~= up);
    } else {
        assert(whole == dir.push('/') + up);
        assert(whole.skip(dir.len() as int + 1) =~= up);
    }
    assert(seq!['/'].skip(1) =~= Seq::<char>::empty());
    let none = Seq::<char>::empty();
    assert(none.skip(0) =~= none);
}

} // verus!
