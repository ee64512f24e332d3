//! Ordered routing rules: the first rule whose matcher covers a name decides
//! the upstream tag, and a default tag stands when none does.
use vstd::prelude::*;

use crate::matcher::{entry_set, matched_by, Domain};
use crate::text::views_of;

verus! {

/// A destination tag and the patterns that send a name there.
pub struct Rule {
    pub dst: String,
    pub matcher: Domain,
}

impl Rule {
    /// A rule to `dst` for the patterns listed in `list`, one per line.
    pub fn new(dst: String, list: &str) -> (r: Rule)
        ensures
            r.dst == dst,
            r.matcher.wf(),
            r.matcher@ == entry_set(list@),
    {
        let mut matcher = Domain::new();
        matcher.insert_multi(list);
        assert(matcher@ =~= entry_set(list@));
        Rule { dst, matcher }
    }
}

/// Every rule's matcher is well formed.
pub open spec fn rules_wf(rules: Seq<Rule>) -> bool {
    forall|i: int| 0 <= i < rules.len() ==> (#[trigger] rules[i]).matcher.wf()
}

/// The tag for `name`: that of the first rule whose patterns cover it, or
/// `default` when none does.
pub open spec fn route(rules: Seq<Rule>, default: Seq<char>, name: Seq<char>) -> Seq<char>
    decreases rules.len(),
{
    if rules.len() == 0 {
        default
    } else if matched_by(rules[0].matcher@, name) {
        rules[0].dst@
    } else {
        route(rules.drop_first(), default, name)
    }
}

/// The tags that some rule sends names to.
pub open spec fn dsts(rules: Seq<Rule>) -> Set<Seq<char>> {
    Set::new(|t: Seq<char>| exists|i: int| 0 <= i < rules.len() && (#[trigger] rules[i]).dst@ == t)
}

/// Rules in the order given, and the default tag.
pub struct Filter {
    default_tag: String,
    rules: Vec<Rule>,
}

impl Filter {
    pub closed spec fn rules(&self) -> Seq<Rule> {
        self.rules@
    }

    pub closed spec fn spec_default_tag(&self) -> String {
        self.default_tag
    }

    pub fn new(default_tag: String, rules: Vec<Rule>) -> (r: Filter)
        requires
            rules_wf(rules@),
        ensures
            r.spec_default_tag() == default_tag,
            r.rules() == rules@,
    {
        Filter { default_tag, rules }
    }

    /// The tag that `name` is routed to.
    pub fn get_upstream(&self, name: &str) -> (r: &String)
        requires
            rules_wf(self.rules()),
        ensures
            r@ == route(self.rules(), self.spec_default_tag()@, name@),
    {
        let ghost rs = self.rules@;
        let ghost d = self.default_tag@;
        let mut i: usize = 0;
        assert(rs.subrange(0, rs.len() as int) =~= rs);
        while i < self.rules.len()
            invariant
                rs == self.rules@,
                rules_wf(rs),
                d == self.default_tag@,
                i <= rs.len(),
                route(rs, d, name@) == route(rs.subrange(i as int, rs.len() as int), d, name@),
            decreases rs.len() - i,
        {
            assert(rs.subrange(i as int, rs.len() as int)[0] == rs[i as int]);
            assert(rs[i as int].matcher.wf());
            if self.rules[i].matcher.matches(name) {
                return &self.rules[i].dst;
            }
            assert(rs.subrange(i as int, rs.len() as int).drop_first() =~= rs.subrange(
                i + 1,
                rs.len() as int,
            ));
            i = i + 1;
        }
        &self.default_tag
    }

    /// The distinct destination tags of the rules, in the order in which they
    /// first appear.
    pub fn get_dsts(&self) -> (r: Vec<String>)
        ensures
            views_of(r@).no_duplicates(),
            views_of(r@).to_set() == dsts(self.rules()),
    {
        let ghost rs = self.rules@;
        let mut out: Vec<String> = Vec::new();
        let mut i: usize = 0;
        while i < self.rules.len()
            invariant
                rs == self.rules@,
                i <= rs.len(),
                views_of(out@).no_duplicates(),
                forall|t: Seq<char>|
                    views_of(out@).contains(t) <==> exists|j: int|
                        0 <= j < i && (#[trigger] rs[j]).dst@ == t,
            decreases rs.len() - i,
        {
            let t = &self.rules[i].dst;
            let mut k: usize = 0;
            let mut seen = false;
            while k < out.len()
                invariant
                    k <= out@.len(),
                    !seen ==> forall|q: int| 0 <= q < k ==> out@[q]@ != t@,
                    seen ==> views_of(out@).contains(t@),
                decreases out@.len() - k,
            {
                if out[k] == *t {
                    assert(views_of(out@)[k as int] == t@);
                    seen = true;
                }
                k = k + 1;
            }
            let ghost before = views_of(out@);
            if !seen {
                out.push(t.clone());
                assert(views_of(out@) =~= before.push(t@));
            }
            assert forall|u: Seq<char>|
                #[trigger] views_of(out@).contains(u) <==> exists|j: int|
                    0 <= j < i + 1 && (#[trigger] rs[j]).dst@ == u by {
                if views_of(out@).contains(u) && u != t@ {
                    assert(before.contains(u));
                }
                if exists|j: int| 0 <= j < i + 1 && (#[trigger] rs[j]).dst@ == u {
                    let j = choose|j: int| 0 <= j < i + 1 && (#[trigger] rs[j]).dst@ == u;
                    if j < i {
                        assert(before.contains(u));
                        if !seen {
                            assert(views_of(out@)[before.index_of(u)] == u);
                        }
                    } else if !seen {
                        assert(views_of(out@)[before.len() as int] == u);
                    }
                }
            }
            i = i + 1;
        }
        assert(views_of(out@).to_set() =~= dsts(rs));
        out
    }

    /// The rules, in order.
    pub fn rule_list(&self) -> (r: &Vec<Rule>)
        ensures
            r@ == self.rules(),
    {
        &self.rules
    }

    /// The tag used when no rule covers a name.
    pub fn default_tag(&self) -> (r: &String)
        ensures
            r == self.spec_default_tag(),
    {
        &self.default_tag
    }
}

} // verus!
