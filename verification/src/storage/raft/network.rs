//! Where the other nodes of a cluster are.
use vstd::prelude::*;
use vstd::string::*;
use crate::config;
use crate::config::PeerView;
use crate::text;

verus! {

/// The last address that nodes have for a number.
pub open spec fn address_of(peers: Seq<PeerView>, id: u64) -> Option<Seq<char>>
    decreases peers.len(),
{
    if peers.len() == 0 {
        None
    } else if peers.last().id == id {
        Some(peers.last().address)
    } else {
        address_of(peers.drop_last(), id)
    }
}

/// The URL of a node.
pub open spec fn url_of(peers: Seq<PeerView>, target: u64) -> Seq<char> {
    "http://"@ + match address_of(peers, target) {
        Some(address) => address,
        None => "node-"@ + text::decimal(target as nat) + ":21001"@,
    }
}

/// The addresses of the other nodes. A later address of a node takes the place of an
/// earlier one.
pub struct PeerUrls {
    peers: Vec<(u64, String)>,
}

impl View for PeerUrls {
    type V = Seq<PeerView>;

    closed spec fn view(&self) -> Seq<PeerView> {
        config::peer_views(self.peers@)
    }
}

impl PeerUrls {
    /// The given addresses.
    pub fn new(peers: Vec<(u64, String)>) -> (p: PeerUrls)
        ensures
            p@ == config::peer_views(peers@),
    {
        PeerUrls { peers }
    }

    /// The address of a node.
    pub fn url_for(&self, target: u64) -> (r: Option<String>)
        ensures
            match r {
                Some(address) => address_of(self@, target) == Some(address@),
                None => address_of(self@, target) is None,
            },
    {
        let mut n: usize = self.peers.len();
        assert(self@.take(n as int) =~= self@);
        while n > 0
            invariant
                n <= self.peers@.len(),
                address_of(self@, target) == address_of(self@.take(n as int), target),
            decreases n,
        {
            proof {
                let t = self@.take(n as int);
                assert(t.last() == self@[n - 1]);
                assert(t.drop_last() =~= self@.take(n - 1));
            }
            if self.peers[n - 1].0 == target {
                return Some(self.peers[n - 1].1.clone());
            }
            n = n - 1;
        }
        None
    }

    /// Sets the address of a node.
    pub fn add_peer(&mut self, id: u64, url: String)
        ensures
            final(self)@ == old(self)@.push(PeerView { id, address: url@ }),
    {
        let ghost before = self@;
        let ghost p = PeerView { id, address: url@ };
        self.peers.push((id, url));
        assert(self@ =~= before.push(p));
    }

    /// The URL of a node; a node without an address is taken to be at a name made of its
    /// number.
    pub fn new_client(&self, target: u64) -> (url: String)
        ensures
            url@ == url_of(self@, target),
    {
        let address: String = match self.url_for(target) {
            Some(address) => address,
            None => {
                let mut name = "node-".to_owned();
                text::push_decimal(&mut name, target);
                name.append(":21001");
                name
            },
        };
        let mut url = "http://".to_owned();
        url.append(address.as_str());
        url
    }
}

/// The address that was set last is the one that is found, and those of other nodes stay.
pub proof fn law_added_peer_found(peers: Seq<PeerView>, p: PeerView, other: u64)
    ensures
        address_of(peers.push(p), p.id) == Some(p.address),
        other != p.id ==> address_of(peers.push(p), other) == address_of(peers, other),
{
    assert(peers.push(p).drop_last() =~= peers);
}

/// A node's address is the one in the last place that has its number, and a node that has
/// no place has no address.
pub proof fn law_last_address_found(peers: Seq<PeerView>, id: u64)
    ensures
        match address_of(peers, id) {
            Some(address) => exists|i: int|
                {
                    &&& 0 <= i < peers.len()
                    &&& (#[trigger] peers[i]).id == id
                    &&& peers[i].address == address
                    &&& forall|j: int| i < j < peers.len() ==> (#[trigger] peers[j]).id != id
                },
            None => forall|i: int| 0 <= i < peers.len() ==> (#[trigger] peers[i]).id != id,
        },
    decreases peers.len(),
{
    if peers.len() > 0 {
        let (front, n) = (peers.drop_last(), peers.len() - 1);
        assert(peers[n] == peers.last());
        if peers.last().id != id {
            law_last_address_found(front, id);
            match address_of(front, id) {
                Some(address) => {
                    let i = choose|i: int|
                        {
                            &&& 0 <= i < front.len()
                            &&& (#[trigger] front[i]).id == id
                            &&& front[i].address == address
                            &&& forall|j: int|
                                i < j < front.len() ==> (#[trigger] front[j]).id != id
                        };
                    assert(peers[i] == front[i]);
                    assert forall|j: int| i < j < peers.len() implies (#[trigger] peers[j]).id
                        != id by {
                        if j < n {
                            assert(peers[j] == front[j]);
                        }
                    }
                },
                None => {
                    assert forall|i: int| 0 <= i < peers.len() implies (#[trigger] peers[i]).id
                        != id by {
                        if i < n {
                            assert(peers[i] == front[i]);
                        }
                    }
                },
            }
        }
    }
}

/// The URL of a node is its address behind the scheme; of a node without an address it
/// is the name made of its number, with the port that nodes listen on.
pub proof fn law_url_has_address(peers: Seq<PeerView>, p: PeerView, other: u64)
    requires
        forall|i: int| 0 <= i < peers.len() ==> (#[trigger] peers[i]).id != other,
        other != p.id,
    ensures
        url_of(peers.push(p), p.id) == "http://"@ + p.address,
        url_of(peers.push(p), other) == "http://"@ + ("node-"@ + text::decimal(other as nat)
            + ":21001"@),
{
    law_added_peer_found(peers, p, other);
    law_last_address_found(peers, other);
}

} // verus!
