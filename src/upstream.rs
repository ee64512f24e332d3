//! The configured upstream resolvers, keyed by tag, and the consistency of
//! hybrid upstreams.
use vstd::prelude::*;

use crate::error::{ConfigError, UpstreamError};

verus! {

/// How an upstream is reached.
#[derive(Debug, Clone)]
pub enum UpstreamKind {
    /// Plain DNS over UDP, to an address such as `"1.1.1.1:53"`.
    Udp(String),
    /// Plain DNS over TCP.
    Tcp(String),
    /// DNS over TLS.
    Tls(String),
    /// DNS over HTTPS, to a URL.
    Https(String),
    /// A race between the upstreams of the tags listed.
    Hybrid(Vec<String>),
}

/// One upstream resolver: its tag, how it is reached, and its timeout in seconds.
#[derive(Debug, Clone)]
pub struct Upstream {
    pub tag: String,
    pub method: UpstreamKind,
    pub timeout: u64,
}

/// The tags that an upstream refers to: those of a hybrid, none otherwise.
pub open spec fn refs_of(u: Upstream) -> Seq<Seq<char>> {
    match u.method {
        UpstreamKind::Hybrid(v) => v@.map_values(|s: String| s@),
        _ => Seq::empty(),
    }
}

/// Entry `i` is the last one tagged `t`: a later definition of a tag replaces
/// an earlier one.
pub open spec fn is_last(ups: Seq<Upstream>, t: Seq<char>, i: int) -> bool {
    0 <= i < ups.len() && ups[i].tag@ == t && forall|j: int|
        i < j < ups.len() ==> (#[trigger] ups[j]).tag@ != t
}

/// Some upstream has tag `t`.
pub open spec fn has_tag(ups: Seq<Upstream>, t: Seq<char>) -> bool {
    exists|i: int| 0 <= i < ups.len() && (#[trigger] ups[i]).tag@ == t
}

/// The entry that tag `t` stands for, if any.
pub open spec fn live(ups: Seq<Upstream>, t: Seq<char>) -> Option<usize> {
    if exists|i: usize| is_last(ups, t, i as int) {
        Some(choose|i: usize| is_last(ups, t, i as int))
    } else {
        None
    }
}

/// Following hybrid references from the last entry of `path` reaches only
/// tags that exist and never comes back to an entry already on the path.
pub open spec fn path_ok(ups: Seq<Upstream>, path: Seq<usize>) -> bool
    decreases ups.len() + 1 - path.len(),
{
    if path.len() == 0 || path.len() > ups.len() || path.last() >= ups.len() {
        false
    } else {
        let rs = refs_of(ups[path.last() as int]);
        forall|k: int|
            0 <= k < rs.len() ==> match live(ups, #[trigger] rs[k]) {
                Some(j) => !path.contains(j) && path_ok(ups, path.push(j)),
                None => false,
            }
    }
}

/// Every hybrid refers only to existing tags, and none reaches itself.
pub open spec fn hybrids_ok(ups: Seq<Upstream>) -> bool {
    forall|i: int|
        0 <= i < ups.len() && #[trigger] is_last(ups, ups[i].tag@, i) ==> path_ok(
            ups,
            seq![i as usize],
        )
}

/// The smallest of a non-empty sequence of times to live.
pub open spec fn min_ttl(s: Seq<u32>) -> u32
    recommends
        s.len() > 0,
    decreases s.len(),
{
    if s.len() <= 1 {
        s[0]
    } else if s.last() < min_ttl(s.drop_last()) {
        s.last()
    } else {
        min_ttl(s.drop_last())
    }
}

/// How long a response whose answers have these times to live stays cached:
/// the smallest of them, where at least one is positive; otherwise the
/// response is not cached.
pub fn cache_ttl(ttls: &Vec<u32>) -> (r: Option<u32>)
    ensures
        r is Some <==> exists|i: int| 0 <= i < ttls@.len() && #[trigger] ttls@[i] > 0,
        r matches Some(t) ==> t == min_ttl(ttls@),
{
    let mut any_positive = false;
    let mut m: u32 = 0;
    let mut i: usize = 0;
    while i < ttls.len()
        invariant
            i <= ttls@.len(),
            any_positive <==> exists|j: int| 0 <= j < i && #[trigger] ttls@[j] > 0,
            i > 0 ==> m == min_ttl(ttls@.subrange(0, i as int)),
        decreases ttls@.len() - i,
    {
        let t = ttls[i];
        let ghost pre = ttls@.subrange(0, i as int);
        assert(ttls@.subrange(0, i + 1).drop_last() =~= pre);
        if i == 0 || t < m {
            m = t;
        }
        if t > 0 {
            any_positive = true;
        }
        i = i + 1;
    }
    assert(ttls@.subrange(0, ttls@.len() as int) =~= ttls@);
    if any_positive {
        Some(m)
    } else {
        None
    }
}

/// The outcome of a hybrid upstream named `tag`, from the outcomes of its
/// members in the order in which they completed: the first success, or an
/// error where all of them failed.
pub fn first_success<T, E>(tag: &String, outcomes: Vec<Result<T, E>>) -> (r: Result<T, UpstreamError>)
    ensures
        match r {
            Ok(v) => exists|i: int|
                0 <= i < outcomes@.len() && outcomes@[i] == Ok::<T, E>(v) && forall|j: int|
                    0 <= j < i ==> (#[trigger] outcomes@[j]) is Err,
            Err(e) => (e matches UpstreamError::AllFailed(t) && t@ == tag@) && forall|j: int|
                0 <= j < outcomes@.len() ==> (#[trigger] outcomes@[j]) is Err,
        },
{
    let ghost all = outcomes@;
    let mut rest = outcomes;
    let n = rest.len();
    let mut k: usize = 0;
    assert(all.subrange(0, all.len() as int) =~= all);
    while rest.len() > 0
        invariant
            all == outcomes@,
            n == all.len(),
            k + rest@.len() == n,
            rest@ == all.subrange(k as int, all.len() as int),
            forall|j: int| 0 <= j < k ==> (#[trigger] all[j]) is Err,
        decreases rest@.len(),
    {
        let o = rest.remove(0);
        assert(o == all[k as int]);
        assert(rest@ =~= all.subrange(k + 1, all.len() as int));
        match o {
            Ok(v) => {
                assert(all[k as int] == Ok::<T, E>(v));
                return Ok(v);
            },
            Err(_) => {},
        }
        k = k + 1;
    }
    Err(UpstreamError::AllFailed(tag.clone()))
}

/// Whether `j` is on `path`.
fn index_in(path: &Vec<usize>, j: usize) -> (r: bool)
    ensures
        r == path@.contains(j),
{
    let mut m: usize = 0;
    while m < path.len()
        invariant
            m <= path@.len(),
            forall|q: int| 0 <= q < m ==> path@[q] != j,
        decreases path@.len() - m,
    {
        if path[m] == j {
            assert(path@[m as int] == j);
            return true;
        }
        m = m + 1;
    }
    false
}

/// `h` is the tag of the first entry, in list order, whose hybrid check fails.
pub open spec fn first_bad_hybrid(ups: Seq<Upstream>, h: Seq<char>) -> bool {
    exists|i: int|
        #[trigger] is_last(ups, h, i) && !path_ok(ups, seq![i as usize]) && forall|q: int|
            0 <= q < i && #[trigger] is_last(ups, ups[q].tag@, q) ==> path_ok(
                ups,
                seq![q as usize],
            )
}

/// The upstreams, keyed by tag, and the capacity of their response cache.
pub struct Upstreams {
    list: Vec<Upstream>,
    cache_size: usize,
}

impl Upstreams {
    pub closed spec fn entries(&self) -> Seq<Upstream> {
        self.list@
    }

    pub closed spec fn spec_cache_size(&self) -> usize {
        self.cache_size
    }

    /// Keeps the upstreams as given; a capacity of 0 turns caching off.
    pub fn new(list: Vec<Upstream>, cache_size: usize) -> (r: Upstreams)
        ensures
            r.entries() == list@,
            r.spec_cache_size() == cache_size,
    {
        Upstreams { list, cache_size }
    }

    /// The capacity of the response cache.
    pub fn cache_size(&self) -> (r: usize)
        ensures
            r == self.spec_cache_size(),
    {
        self.cache_size
    }

    /// The upstream that `tag` stands for.
    pub fn get(&self, tag: &String) -> (r: Option<&Upstream>)
        ensures
            match live(self.entries(), tag@) {
                Some(i) => r == Some(&self.entries()[i as int]),
                None => r is None,
            },
    {
        match self.lookup(tag) {
            Some(i) => Some(&self.list[i]),
            None => None,
        }
    }

    fn lookup(&self, tag: &String) -> (r: Option<usize>)
        ensures
            r == live(self.entries(), tag@),
    {
        let ups = Ghost(self.list@);
        let mut k: usize = self.list.len();
        while k > 0
            invariant
                k <= self.list@.len(),
                ups@ == self.list@,
                forall|j: int| k <= j < self.list@.len() ==> (#[trigger] self.list@[j]).tag@ != tag@,
            decreases k,
        {
            if self.list[k - 1].tag == *tag {
                let i = k - 1;
                assert(is_last(ups@, tag@, i as int));
                assert forall|m: usize| is_last(ups@, tag@, m as int) implies m == i by {
                    if m < i {
                        assert(ups@[i as int].tag@ == tag@);
                    } else if m > i {
                        assert(ups@[m as int].tag@ == tag@);
                    }
                }
                assert(live(ups@, tag@) == Some(i));
                return Some(i);
            }
            k = k - 1;
        }
        assert(!exists|i: usize| is_last(ups@, tag@, i as int));
        None
    }

    /// How a query for `tag` is sent: the transport of its upstream, or an
    /// error where no upstream has that tag.
    pub fn dispatch(&self, tag: &String) -> (r: Result<&UpstreamKind, UpstreamError>)
        ensures
            match live(self.entries(), tag@) {
                Some(i) => r == Ok::<&UpstreamKind, UpstreamError>(&self.entries()[i as int].method),
                None => r matches Err(UpstreamError::UnknownTag(t)) && t@ == tag@,
            },
    {
        match self.lookup(tag) {
            Some(i) => Ok(&self.list[i].method),
            None => Err(UpstreamError::UnknownTag(tag.clone())),
        }
    }

    /// Whether some upstream has `tag`.
    pub fn contains(&self, tag: &String) -> (r: bool)
        ensures
            r == has_tag(self.entries(), tag@),
    {
        let mut k: usize = 0;
        while k < self.list.len()
            invariant
                k <= self.list@.len(),
                forall|j: int| 0 <= j < k ==> (#[trigger] self.list@[j]).tag@ != tag@,
            decreases self.list@.len() - k,
        {
            if self.list[k].tag == *tag {
                assert(self.list@[k as int].tag@ == tag@);
                return true;
            }
            k = k + 1;
        }
        false
    }

    /// Succeeds when some upstream has `tag`; fails naming it otherwise.
    pub fn require_tag(&self, tag: &String) -> (r: Result<(), ConfigError>)
        ensures
            r is Ok <==> has_tag(self.entries(), tag@),
            r matches Err(e) ==> e matches ConfigError::MissingTag(t) && t@ == tag@,
    {
        if self.contains(tag) {
            Ok(())
        } else {
            Err(ConfigError::MissingTag(tag.clone()))
        }
    }
    fn path_check(&self, path: &mut Vec<usize>) -> (r: bool)
        requires
            old(path)@.len() >= 1,
        ensures
            final(path)@ == old(path)@,
            r == path_ok(self.entries(), old(path)@),
        decreases self.list@.len() + 1 - old(path)@.len(),
    {
        let ghost ups = self.list@;
        let ghost p0 = path@;
        let n = path.len();
        if n > self.list.len() || path[n - 1] >= self.list.len() {
            return false;
        }
        let last = path[n - 1];
        let refs = match &self.list[last].method {
            UpstreamKind::Hybrid(v) => v,
            _ => {
                return true;
            },
        };
        let ghost rs = refs_of(ups[last as int]);
        assert(rs == refs@.map_values(|s: String| s@));
        let mut k: usize = 0;
        while k < refs.len()
            invariant
                path@ == p0,
                p0 == old(path)@,
                ups == self.list@,
                p0.len() == n,
                1 <= n <= ups.len(),
                last == p0.last(),
                last < ups.len(),
                rs == refs@.map_values(|s: String| s@),
                rs == refs_of(ups[last as int]),
                k <= refs@.len(),
                forall|m: int|
                    0 <= m < k ==> match live(ups, #[trigger] rs[m]) {
                        Some(j) => !p0.contains(j) && path_ok(ups, p0.push(j)),
                        None => false,
                    },
            decreases refs@.len() - k,
        {
            assert(rs[k as int] == refs@[k as int]@);
            match self.lookup(&refs[k]) {
                None => {
                    return false;
                },
                Some(j) => {
                    if index_in(path, j) {
                        return false;
                    }
                    path.push(j);
                    let ok = self.path_check(path);
                    path.pop();
                    assert(path@ =~= p0);
                    if !ok {
                        return false;
                    }
                },
            }
            k = k + 1;
        }
        true
    }

    /// Succeeds when every hybrid upstream refers only to existing tags and
    /// none reaches itself through other hybrids; fails naming a hybrid for
    /// which that does not hold.
    pub fn hybrid_check(&self) -> (r: Result<(), ConfigError>)
        ensures
            r is Ok <==> hybrids_ok(self.entries()),
            r is Err ==> r->Err_0 is BadHybrid && first_bad_hybrid(
                self.entries(),
                r->Err_0->BadHybrid_0@,
            ),
    {
        let ghost ups = self.list@;
        let mut i: usize = 0;
        while i < self.list.len()
            invariant
                ups == self.list@,
                i <= ups.len(),
                forall|q: int|
                    0 <= q < i && #[trigger] is_last(ups, ups[q].tag@, q) ==> path_ok(
                        ups,
                        seq![q as usize],
                    ),
            decreases ups.len() - i,
        {
            let tag = &self.list[i].tag;
            if self.lookup(tag) == Some(i) {
                let mut path: Vec<usize> = Vec::new();
                path.push(i);
                assert(path@ =~= seq![i]);
                if !self.path_check(&mut path) {
                    let t = tag.clone();
                    let ghost tv = t;
                    let r: Result<(), ConfigError> = Err(ConfigError::BadHybrid(t));
                    assert(seq![(i as int) as usize] == path@);
                    assert(is_last(self.entries(), self.entries()[i as int].tag@, i as int));
                    assert(is_last(self.entries(), tv@, i as int));
                    assert(r->Err_0->BadHybrid_0 == tv);
                    return r;
                }
            }
            proof {
                if is_last(ups, ups[i as int].tag@, i as int) {
                    assert(live(ups, ups[i as int].tag@) == Some(i)) by {
                        assert forall|m: usize| is_last(ups, ups[i as int].tag@, m as int) implies m
                            == i by {
                            if m < i {
                                assert(ups[i as int].tag@ == ups[i as int].tag@);
                            } else if m > i {
                                assert(ups[m as int].tag@ == ups[i as int].tag@);
                            }
                        }
                    }
                }
            }
            i = i + 1;
        }
        Ok(())
    }
}

} // verus!
