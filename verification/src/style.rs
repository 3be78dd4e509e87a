//! The cascade resolver: given a content node's identity (tag name,
//! optional id, class set) and a parsed stylesheet, the effective property
//! values at that node.
//!
//! A rule applies if any of its selectors matches the node; its priority is
//! the highest specificity among its own matching selectors. Matching rules
//! are applied in ascending priority order, ties broken by source order, and
//! later writes overwrite earlier ones: the highest-priority, latest
//! declaration of each property persists.

use crate::css::{
    Rule, Selector, SpecDeclaration, SpecRule, SpecSelector, SpecSimpleSelector, SpecValue,
    Specificity, Stylesheet, Value, is_universal_tag, is_universal_tag_text, spec_le, spec_lt,
    spec_specificity, specificity_le,
};
use crate::dom::Node;
use crate::text::str_eq;
use vstd::map::*;
use vstd::prelude::*;

verus! {

/// A map from property names to resolved values, with unique keys.
#[derive(Clone, Debug, PartialEq)]
pub struct PropertyMap {
    entries: Vec<(String, Value)>,
}

/// The map an association list denotes: later entries win, though the
/// entries of a well-formed list have unique keys.
pub open spec fn props_map(s: Seq<(String, Value)>) -> Map<Seq<char>, SpecValue>
    decreases s.len(),
{
    if s.len() == 0 {
        Map::empty()
    } else {
        props_map(s.drop_last()).insert(s.last().0@, s.last().1.deep_view())
    }
}

/// No two entries share a key.
pub open spec fn props_unique(s: Seq<(String, Value)>) -> bool {
    forall|i: int, j: int| 0 <= i < j < s.len() ==> s[i].0@ != s[j].0@
}

/// What an association list holds: a key is present iff some entry bears it,
/// and it maps to that entry's value.
proof fn lemma_props_map_get(s: Seq<(String, Value)>, k: Seq<char>)
    requires
        props_unique(s),
    ensures
        props_map(s).contains_key(k) <==> (exists|i: int| 0 <= i < s.len() && s[i].0@ == k),
        forall|i: int|
            0 <= i < s.len() && s[i].0@ == k ==> props_map(s).contains_key(k) && props_map(s)[k]
                == s[i].1.deep_view(),
    decreases s.len(),
{
    if s.len() > 0 {
        let t = s.drop_last();
        assert(props_unique(t)) by {
            assert(forall|i: int, j: int|
                0 <= i < j < t.len() ==> t[i].0@ == s[i].0@ && t[j].0@ == s[j].0@);
        }
        lemma_props_map_get(t, k);
        if k == s.last().0@ {
            assert(forall|i: int|
                0 <= i < s.len() - 1 ==> #[trigger] s[i].0@ != s[s.len() - 1].0@);
        } else {
            assert(forall|i: int| 0 <= i < t.len() ==> t[i] == s[i]);
        }
    }
}

impl PropertyMap {
    /// Well-formed: no two entries share a key. Constructors establish this
    /// and methods preserve it.
    pub closed spec fn wf(self) -> bool {
        props_unique(self.entries@)
    }

    /// An empty property map.
    pub fn new() -> (r: PropertyMap)
        ensures
            r.wf(),
            r@ == Map::<Seq<char>, SpecValue>::empty(),
    {
        PropertyMap { entries: Vec::new() }
    }

    /// Bind `name` to `value`, replacing any earlier binding of `name`.
    pub fn insert(&mut self, name: String, value: Value)
        requires
            old(self).wf(),
        ensures
            final(self).wf(),
            final(self)@ == old(self)@.insert(name@, value.deep_view()),
    {
        let ghost s0 = self.entries@;
        let ghost vd = value.deep_view();
        let mut i: usize = 0;
        while i < self.entries.len()
            invariant
                props_unique(s0),
                old(self).entries@ == s0,
                self.entries@ == s0,
                i <= s0.len(),
                vd == value.deep_view(),
                forall|j: int| 0 <= j < i ==> s0[j].0@ != name@,
            decreases s0.len() - i,
        {
            if str_eq(self.entries[i].0.as_str(), name.as_str()) {
                self.entries[i] = (name, value);
                proof {
                    let s1 = self.entries@;
                    assert(forall|j: int| 0 <= j < s0.len() && j != i ==> s0[j] == s1[j]);
                    assert(s1[i as int].0@ == s0[i as int].0@);
                    assert(props_unique(s1));
                    let m1 = props_map(s1);
                    let m2 = props_map(s0).insert(s1[i as int].0@, vd);
                    assert_maps_equal!(m1, m2, k => {
                        lemma_props_map_get(s0, k);
                        lemma_props_map_get(s1, k);
                        if k == s1[i as int].0@ {
                        } else {
                            if props_map(s0).contains_key(k) {
                                let j = choose|j: int| 0 <= j < s0.len() && s0[j].0@ == k;
                                assert(s1[j].0@ == k);
                                assert(s1[j].1 == s0[j].1);
                            }
                            if props_map(s1).contains_key(k) {
                                let j = choose|j: int| 0 <= j < s1.len() && s1[j].0@ == k;
                                assert(j != i);
                                assert(s0[j].0@ == k);
                            }
                        }
                    });
                }
                return ;
            }
            i = i + 1;
        }
        self.entries.push((name, value));
        proof {
            let s1 = self.entries@;
            assert(s1.drop_last() =~= s0);
            assert(s1.last().0@ == name@);
            assert(forall|j: int| 0 <= j < s0.len() ==> s1[j] == s0[j]);
            assert(props_unique(s1));
        }
    }

    /// The value bound to `name`, if any.
    pub fn get(&self, name: &str) -> (r: Option<&Value>)
        requires
            self.wf(),
        ensures
            match r {
                Some(v) => self@.contains_key(name@) && v.deep_view() == self@[name@],
                None => !self@.contains_key(name@),
            },
    {
        let mut i: usize = 0;
        while i < self.entries.len()
            invariant
                props_unique(self.entries@),
                i <= self.entries@.len(),
                forall|j: int| 0 <= j < i ==> self.entries@[j].0@ != name@,
            decreases self.entries@.len() - i,
        {
            if str_eq(self.entries[i].0.as_str(), name) {
                proof {
                    lemma_props_map_get(self.entries@, name@);
                }
                return Some(&self.entries[i].1);
            }
            i = i + 1;
        }
        proof {
            lemma_props_map_get(self.entries@, name@);
        }
        None
    }
}

impl View for PropertyMap {
    type V = Map<Seq<char>, SpecValue>;

    closed spec fn view(&self) -> Map<Seq<char>, SpecValue> {
        props_map(self.entries@)
    }
}

/// Copy a value, channel by channel and character by character.
pub fn clone_value(v: &Value) -> (r: Value)
    ensures
        r.deep_view() == v.deep_view(),
{
    match v {
        Value::Keyword(s) => Value::Keyword(s.clone()),
        Value::Length(t, u) => Value::Length(t.clone(), *u),
        Value::ColorValue(c) => Value::ColorValue(*c),
    }
}

/// Whether a simple selector matches a node identity: the tag name is
/// absent, universal, or equal to the node's; the id is absent or equal to
/// the node's; and every listed class is among the node's classes.
pub open spec fn simple_selector_matches(
    sel: SpecSimpleSelector,
    tag_name: Seq<char>,
    id: Option<Seq<char>>,
    classes: Seq<Seq<char>>,
) -> bool {
    &&& match sel.tag_name {
        Some(t) => is_universal_tag(t) || t == tag_name,
        None => true,
    }
    &&& match sel.id {
        Some(i) => id == Some(i),
        None => true,
    }
    &&& forall|k: int| 0 <= k < sel.class.len() ==> classes.contains(#[trigger] sel.class[k])
}

/// Whether a selector matches a node identity.
pub open spec fn spec_selector_matches(
    sel: SpecSelector,
    tag_name: Seq<char>,
    id: Option<Seq<char>>,
    classes: Seq<Seq<char>>,
) -> bool {
    match sel {
        SpecSelector::Simple(ss) => simple_selector_matches(ss, tag_name, id, classes),
    }
}

/// Check whether every class a selector lists is among the node's classes.
fn vec_contains_string(v: &Vec<String>, x: &String) -> (r: bool)
    ensures
        r == v.deep_view().contains(x@),
{
    let mut i: usize = 0;
    while i < v.len()
        invariant
            i <= v@.len(),
            v.deep_view().len() == v@.len(),
            forall|j: int| 0 <= j < i ==> v.deep_view()[j] != x@,
        decreases v@.len() - i,
    {
        if str_eq(v[i].as_str(), x.as_str()) {
            proof {
                assert(v.deep_view()[i as int] == x@);
            }
            return true;
        }
        proof {
            assert(v.deep_view()[i as int] == v@[i as int]@);
        }
        i = i + 1;
    }
    proof {
        assert(!v.deep_view().contains(x@));
    }
    false
}

/// Check whether a selector matches a node identity given as tag name,
/// optional id, and class set.
pub fn selector_matches(
    selector: &Selector,
    tag_name: &String,
    id: &Option<String>,
    class: &Vec<String>,
) -> (r: bool)
    ensures
        r == spec_selector_matches(
            selector.deep_view(),
            tag_name@,
            id.deep_view(),
            class.deep_view(),
        ),
{
    let Selector::Simple(ss) = selector;
    match &ss.tag_name {
        None => {},
        Some(t) => {
            if !(is_universal_tag_text(t) || str_eq(t.as_str(), tag_name.as_str())) {
                return false;
            }
        },
    }
    match &ss.id {
        None => {},
        Some(i) => {
            match id {
                Some(node_id) => {
                    if !str_eq(i.as_str(), node_id.as_str()) {
                        return false;
                    }
                },
                None => {
                    return false;
                },
            }
        },
    }
    let mut k: usize = 0;
    while k < ss.class.len()
        invariant
            k <= ss.class@.len(),
            ss.class.deep_view().len() == ss.class@.len(),
            selector.deep_view() == SpecSelector::Simple(ss.deep_view()),
            (match ss.deep_view().tag_name {
                Some(t) => is_universal_tag(t) || t == tag_name@,
                None => true,
            }),
            (match ss.deep_view().id {
                Some(i) => id.deep_view() == Some(i),
                None => true,
            }),
            forall|j: int|
                0 <= j < k ==> class.deep_view().contains(#[trigger] ss.class.deep_view()[j]),
        decreases ss.class@.len() - k,
    {
        proof {
            assert(ss.class.deep_view()[k as int] == ss.class@[k as int]@);
        }
        if !vec_contains_string(class, &ss.class[k]) {
            proof {
                assert(!class.deep_view().contains(ss.class.deep_view()[k as int]));
                assert(ss.deep_view().class == ss.class.deep_view());
                assert(!simple_selector_matches(
                    ss.deep_view(),
                    tag_name@,
                    id.deep_view(),
                    class.deep_view(),
                ));
            }
            return false;
        }
        k = k + 1;
    }
    true
}

/// The priority of a matching rule: the highest specificity among its own
/// matching selectors; `None` if no selector matches.
pub open spec fn rule_match_specificity(
    sels: Seq<SpecSelector>,
    tag_name: Seq<char>,
    id: Option<Seq<char>>,
    classes: Seq<Seq<char>>,
) -> Option<(int, int, int)>
    decreases sels.len(),
{
    if sels.len() == 0 {
        None
    } else {
        let rest = rule_match_specificity(sels.drop_last(), tag_name, id, classes);
        if spec_selector_matches(sels.last(), tag_name, id, classes) {
            let k = spec_specificity(sels.last());
            match rest {
                None => Some(k),
                Some(m) => if spec_le(m, k) {
                    Some(k)
                } else {
                    Some(m)
                },
            }
        } else {
            rest
        }
    }
}

/// The rules of a sheet that match a node identity, each as its priority
/// paired with its source position, in source order.
pub open spec fn matching_rules(
    rules: Seq<SpecRule>,
    tag_name: Seq<char>,
    id: Option<Seq<char>>,
    classes: Seq<Seq<char>>,
) -> Seq<((int, int, int), int)>
    decreases rules.len(),
{
    if rules.len() == 0 {
        Seq::empty()
    } else {
        let rest = matching_rules(rules.drop_last(), tag_name, id, classes);
        match rule_match_specificity(rules.last().selectors, tag_name, id, classes) {
            Some(pr) => rest.push((pr, rules.len() - 1)),
            None => rest,
        }
    }
}

/// The cascade order on matching rules: ascending priority, ties broken by
/// ascending source position.
pub open spec fn pair_le(a: ((int, int, int), int), b: ((int, int, int), int)) -> bool {
    spec_lt(a.0, b.0) || (a.0 == b.0 && a.1 <= b.1)
}

/// Inserting a matching rule into a sorted sequence, after every rule of
/// lower or equal cascade order.
pub open spec fn insert_sorted_pair(
    x: ((int, int, int), int),
    s: Seq<((int, int, int), int)>,
) -> Seq<((int, int, int), int)>
    decreases s.len(),
{
    if s.len() == 0 {
        seq![x]
    } else if pair_le(s.last(), x) {
        s.push(x)
    } else {
        insert_sorted_pair(x, s.drop_last()).push(s.last())
    }
}

/// Sorting matching rules into cascade order (an insertion sort; the keys
/// are distinct since source positions are).
pub open spec fn sort_pairs(s: Seq<((int, int, int), int)>) -> Seq<((int, int, int), int)>
    decreases s.len(),
{
    if s.len() == 0 {
        Seq::empty()
    } else {
        insert_sorted_pair(s.last(), sort_pairs(s.drop_last()))
    }
}

/// Ascending by cascade order.
pub open spec fn pairs_sorted(s: Seq<((int, int, int), int)>) -> bool {
    forall|i: int, j: int| 0 <= i < j < s.len() ==> pair_le(s[i], s[j])
}

/// Every source position in the sequence lies below `n`.
pub open spec fn pairs_bounded(s: Seq<((int, int, int), int)>, n: int) -> bool {
    forall|k: int| 0 <= k < s.len() ==> 0 <= #[trigger] s[k].1 < n
}

/// Where the insertion step puts the new pair: right before the first pair
/// of strictly higher cascade order.
proof fn lemma_insert_pair_at(x: ((int, int, int), int), s: Seq<((int, int, int), int)>, k: int)
    requires
        0 <= k <= s.len(),
        forall|j: int| 0 <= j < k ==> pair_le(#[trigger] s[j], x),
        forall|j: int| k <= j < s.len() ==> !pair_le(#[trigger] s[j], x),
    ensures
        insert_sorted_pair(x, s) == s.subrange(0, k) + seq![x] + s.subrange(k, s.len() as int),
    decreases s.len(),
{
    if s.len() == 0 {
        assert(insert_sorted_pair(x, s) =~= s.subrange(0, k) + seq![x] + s.subrange(
            k,
            s.len() as int,
        ));
    } else if k == s.len() {
        assert(insert_sorted_pair(x, s) == s.push(x));
        assert(s.push(x) =~= s.subrange(0, k) + seq![x] + s.subrange(k, s.len() as int));
    } else {
        let t = s.drop_last();
        assert(!pair_le(s.last(), x));
        assert(forall|j: int| 0 <= j < k ==> t[j] == s[j]);
        assert(forall|j: int| k <= j < t.len() ==> t[j] == s[j]);
        lemma_insert_pair_at(x, t, k);
        assert(insert_sorted_pair(x, t).push(s.last()) =~= s.subrange(0, k) + seq![x] + s.subrange(
            k,
            s.len() as int,
        ));
    }
}

/// The insertion step keeps every source position below `n`.
proof fn lemma_insert_pair_bounded(
    x: ((int, int, int), int),
    s: Seq<((int, int, int), int)>,
    n: int,
)
    requires
        pairs_bounded(s, n),
        0 <= x.1 < n,
    ensures
        pairs_bounded(insert_sorted_pair(x, s), n),
    decreases s.len(),
{
    if s.len() == 0 {
    } else if pair_le(s.last(), x) {
    } else {
        let t = s.drop_last();
        assert(forall|j: int| 0 <= j < t.len() ==> t[j] == s[j]);
        lemma_insert_pair_bounded(x, t, n);
        let r = insert_sorted_pair(x, t).push(s.last());
        assert(forall|k: int|
            0 <= k < r.len() - 1 ==> r[k] == insert_sorted_pair(x, t)[k]);
    }
}

/// Sorting keeps every source position below `n`.
proof fn lemma_sort_pairs_bounded(s: Seq<((int, int, int), int)>, n: int)
    requires
        pairs_bounded(s, n),
    ensures
        pairs_bounded(sort_pairs(s), n),
    decreases s.len(),
{
    if s.len() > 0 {
        let t = s.drop_last();
        assert(forall|j: int| 0 <= j < t.len() ==> t[j] == s[j]);
        lemma_sort_pairs_bounded(t, n);
        lemma_insert_pair_bounded(s.last(), sort_pairs(t), n);
    }
}

/// Writing a rule's declarations into a mapping, in order: a later
/// declaration of the same property overwrites an earlier one.
pub open spec fn apply_decls(
    m: Map<Seq<char>, SpecValue>,
    ds: Seq<SpecDeclaration>,
) -> Map<Seq<char>, SpecValue>
    decreases ds.len(),
{
    if ds.len() == 0 {
        m
    } else {
        apply_decls(m, ds.drop_last()).insert(ds.last().name, ds.last().value)
    }
}

/// Writing the matching rules' declarations into a mapping, in cascade
/// order: later writes overwrite earlier ones, so the highest-priority,
/// latest-source-order declaration of each property persists.
pub open spec fn apply_rules(
    m: Map<Seq<char>, SpecValue>,
    pairs: Seq<((int, int, int), int)>,
    rules: Seq<SpecRule>,
) -> Map<Seq<char>, SpecValue>
    decreases pairs.len(),
{
    if pairs.len() == 0 {
        m
    } else {
        apply_decls(
            apply_rules(m, pairs.drop_last(), rules),
            rules[pairs.last().1].declarations,
        )
    }
}

/// What cascade resolution yields for a node identity: the matching rules'
/// declarations, merged in ascending (priority, source order).
pub open spec fn spec_specified_values(
    rules: Seq<SpecRule>,
    tag_name: Seq<char>,
    id: Option<Seq<char>>,
    classes: Seq<Seq<char>>,
) -> Map<Seq<char>, SpecValue> {
    apply_rules(
        Map::empty(),
        sort_pairs(matching_rules(rules, tag_name, id, classes)),
        rules,
    )
}

/// Resolution is deterministic: any two resolutions of the same node
/// identity against the same rules yield identical property mappings.
pub proof fn lemma_resolution_deterministic(
    rules: Seq<SpecRule>,
    tag_name: Seq<char>,
    id: Option<Seq<char>>,
    classes: Seq<Seq<char>>,
    m1: Map<Seq<char>, SpecValue>,
    m2: Map<Seq<char>, SpecValue>,
)
    requires
        m1 == spec_specified_values(rules, tag_name, id, classes),
        m2 == spec_specified_values(rules, tag_name, id, classes),
    ensures
        m1 == m2,
{
}

/// Whether some declaration in the sequence binds the property.
pub open spec fn declares(ds: Seq<SpecDeclaration>, p: Seq<char>) -> bool {
    exists|j: int| 0 <= j < ds.len() && ds[j].name == p
}

/// Writing declarations binds exactly the declared properties, on top of
/// what the mapping already held.
proof fn lemma_apply_decls_contains(
    m: Map<Seq<char>, SpecValue>,
    ds: Seq<SpecDeclaration>,
    p: Seq<char>,
)
    ensures
        apply_decls(m, ds).contains_key(p) <==> (m.contains_key(p) || declares(ds, p)),
    decreases ds.len(),
{
    if ds.len() > 0 {
        let t = ds.drop_last();
        lemma_apply_decls_contains(m, t, p);
        if declares(t, p) {
            let j = choose|j: int| 0 <= j < t.len() && t[j].name == p;
            assert(ds[j].name == p);
        }
        if declares(ds, p) && ds.last().name != p {
            let j = choose|j: int| 0 <= j < ds.len() && ds[j].name == p;
            assert(t[j].name == p);
        }
    }
}

/// The insertion step adds the new pair and keeps the others.
proof fn lemma_insert_pair_member(
    x: ((int, int, int), int),
    s: Seq<((int, int, int), int)>,
    y: ((int, int, int), int),
)
    ensures
        insert_sorted_pair(x, s).contains(y) <==> (y == x || s.contains(y)),
    decreases s.len(),
{
    if s.len() == 0 {
        assert(insert_sorted_pair(x, s)[0] == x);
    } else if pair_le(s.last(), x) {
        let r = s.push(x);
        if r.contains(y) {
            let n = choose|n: int| 0 <= n < r.len() && r[n] == y;
            if n < s.len() {
                assert(s[n] == y);
            }
        }
        if s.contains(y) {
            let n = choose|n: int| 0 <= n < s.len() && s[n] == y;
            assert(r[n] == y);
        }
        assert(r[s.len() as int] == x);
    } else {
        let t = s.drop_last();
        lemma_insert_pair_member(x, t, y);
        let q = insert_sorted_pair(x, t);
        let r = q.push(s.last());
        assert(insert_sorted_pair(x, s) == r);
        if r.contains(y) {
            let n = choose|n: int| 0 <= n < r.len() && r[n] == y;
            if n < q.len() {
                assert(q[n] == y);
            } else {
                assert(y == s.last());
                assert(s[s.len() - 1] == y);
            }
        }
        if s.contains(y) {
            let n = choose|n: int| 0 <= n < s.len() && s[n] == y;
            if n < s.len() - 1 {
                assert(t[n] == y);
                assert(q.contains(y));
                let w = choose|w: int| 0 <= w < q.len() && q[w] == y;
                assert(r[w] == y);
            } else {
                assert(r[q.len() as int] == y);
            }
        }
        if y == x {
            assert(q.contains(y));
            let w = choose|w: int| 0 <= w < q.len() && q[w] == y;
            assert(r[w] == y);
        }
    }
}

/// Sorting the matching rules neither adds nor drops any.
proof fn lemma_sort_pairs_member(s: Seq<((int, int, int), int)>, y: ((int, int, int), int))
    ensures
        sort_pairs(s).contains(y) <==> s.contains(y),
    decreases s.len(),
{
    if s.len() > 0 {
        let t = s.drop_last();
        lemma_sort_pairs_member(t, y);
        lemma_insert_pair_member(s.last(), sort_pairs(t), y);
        if t.contains(y) {
            let n = choose|n: int| 0 <= n < t.len() && t[n] == y;
            assert(s[n] == y);
        }
        if s.contains(y) && y != s.last() {
            let n = choose|n: int| 0 <= n < s.len() && s[n] == y;
            assert(t[n] == y);
        }
        assert(s[s.len() - 1] == s.last());
    }
}

/// The matching pairs are exactly the positions of the rules that match,
/// each carrying that rule's priority.
proof fn lemma_matching_rules_member(
    rules: Seq<SpecRule>,
    tag_name: Seq<char>,
    id: Option<Seq<char>>,
    classes: Seq<Seq<char>>,
    i: int,
)
    ensures
        forall|pr: (int, int, int)|
            matching_rules(rules, tag_name, id, classes).contains((pr, i)) ==> 0 <= i
                < rules.len() && rule_match_specificity(rules[i].selectors, tag_name, id, classes)
                == Some(pr),
        (0 <= i < rules.len() && rule_match_specificity(
            rules[i].selectors,
            tag_name,
            id,
            classes,
        ) is Some) ==> (exists|pr: (int, int, int)|
            matching_rules(rules, tag_name, id, classes).contains((pr, i))),
    decreases rules.len(),
{
    if rules.len() > 0 {
        let t = rules.drop_last();
        lemma_matching_rules_member(t, tag_name, id, classes, i);
        let mt = matching_rules(t, tag_name, id, classes);
        let mr = matching_rules(rules, tag_name, id, classes);
        assert(forall|j: int| 0 <= j < t.len() ==> t[j] == rules[j]);
        match rule_match_specificity(rules.last().selectors, tag_name, id, classes) {
            Some(prl) => {
                assert(mr == mt.push((prl, rules.len() - 1)));
                assert forall|pr: (int, int, int)| mr.contains((pr, i)) implies 0 <= i
                    < rules.len() && rule_match_specificity(
                    rules[i].selectors,
                    tag_name,
                    id,
                    classes,
                ) == Some(pr) by {
                    let n = choose|n: int| 0 <= n < mr.len() && mr[n] == (pr, i);
                    if n < mt.len() {
                        assert(mt.contains((pr, i)));
                    } else {
                        assert((pr, i) == (prl, rules.len() - 1));
                    }
                }
                if 0 <= i < rules.len() && rule_match_specificity(
                    rules[i].selectors,
                    tag_name,
                    id,
                    classes,
                ) is Some {
                    if i == rules.len() - 1 {
                        assert(mr[mt.len() as int] == (prl, i));
                        assert(mr.contains((prl, i)));
                    } else {
                        let pr = choose|pr: (int, int, int)| mt.contains((pr, i));
                        let n = choose|n: int| 0 <= n < mt.len() && mt[n] == (pr, i);
                        assert(mr[n] == (pr, i));
                        assert(mr.contains((pr, i)));
                    }
                }
            },
            None => {
                assert(mr == mt);
                if 0 <= i < rules.len() && rule_match_specificity(
                    rules[i].selectors,
                    tag_name,
                    id,
                    classes,
                ) is Some {
                    assert(i != rules.len() - 1);
                }
            },
        }
    }
}

/// Writing the matching rules' declarations binds exactly the properties
/// some applied rule declares, on top of what the mapping already held.
proof fn lemma_apply_rules_contains(
    m: Map<Seq<char>, SpecValue>,
    pairs: Seq<((int, int, int), int)>,
    rules: Seq<SpecRule>,
    p: Seq<char>,
)
    ensures
        apply_rules(m, pairs, rules).contains_key(p) <==> (m.contains_key(p) || exists|k: int|
            0 <= k < pairs.len() && declares(rules[pairs[k].1].declarations, p)),
    decreases pairs.len(),
{
    if pairs.len() > 0 {
        let t = pairs.drop_last();
        lemma_apply_rules_contains(m, t, rules, p);
        lemma_apply_decls_contains(
            apply_rules(m, t, rules),
            rules[pairs.last().1].declarations,
            p,
        );
        if exists|k: int| 0 <= k < t.len() && declares(rules[t[k].1].declarations, p) {
            let k = choose|k: int| 0 <= k < t.len() && declares(rules[t[k].1].declarations, p);
            assert(pairs[k] == t[k]);
            assert(declares(rules[pairs[k].1].declarations, p));
        }
        if (exists|k: int| 0 <= k < pairs.len() && declares(rules[pairs[k].1].declarations, p))
            && !declares(rules[pairs.last().1].declarations, p) {
            let k = choose|k: int|
                0 <= k < pairs.len() && declares(rules[pairs[k].1].declarations, p);
            assert(k < pairs.len() - 1);
            assert(t[k] == pairs[k]);
            assert(declares(rules[t[k].1].declarations, p));
        }
    }
}

/// A property appears in the resolved mapping iff some rule that matches
/// the node declares it: resolution never fails, and an absent property
/// simply has no matching declaration.
pub proof fn lemma_resolved_property_has_a_source(
    rules: Seq<SpecRule>,
    tag_name: Seq<char>,
    id: Option<Seq<char>>,
    classes: Seq<Seq<char>>,
    p: Seq<char>,
)
    ensures
        spec_specified_values(rules, tag_name, id, classes).contains_key(p) <==> (exists|i: int|
            0 <= i < rules.len() && rule_match_specificity(
                rules[i].selectors,
                tag_name,
                id,
                classes,
            ) is Some && declares(rules[i].declarations, p)),
{
    let mr = matching_rules(rules, tag_name, id, classes);
    let sp = sort_pairs(mr);
    lemma_apply_rules_contains(Map::empty(), sp, rules, p);
    if spec_specified_values(rules, tag_name, id, classes).contains_key(p) {
        let k = choose|k: int| 0 <= k < sp.len() && declares(rules[sp[k].1].declarations, p);
        let x = sp[k];
        assert(sp.contains(x));
        lemma_sort_pairs_member(mr, x);
        lemma_matching_rules_member(rules, tag_name, id, classes, x.1);
        assert(rule_match_specificity(rules[x.1].selectors, tag_name, id, classes) == Some(x.0));
    }
    if exists|i: int|
        0 <= i < rules.len() && rule_match_specificity(
            rules[i].selectors,
            tag_name,
            id,
            classes,
        ) is Some && declares(rules[i].declarations, p) {
        let i = choose|i: int|
            0 <= i < rules.len() && rule_match_specificity(
                rules[i].selectors,
                tag_name,
                id,
                classes,
            ) is Some && declares(rules[i].declarations, p);
        lemma_matching_rules_member(rules, tag_name, id, classes, i);
        let pr = choose|pr: (int, int, int)| mr.contains((pr, i));
        lemma_sort_pairs_member(mr, (pr, i));
        let k = choose|k: int| 0 <= k < sp.len() && sp[k] == (pr, i);
        assert(declares(rules[sp[k].1].declarations, p));
    }
}

/// The model of an executable (priority, source position) pair.
pub open spec fn pair_view(p: (Specificity, usize)) -> ((int, int, int), int) {
    ((p.0.0 as int, p.0.1 as int, p.0.2 as int), p.1 as int)
}

/// The model of a sequence of executable pairs.
pub open spec fn pairs_view(s: Seq<(Specificity, usize)>) -> Seq<((int, int, int), int)> {
    Seq::new(s.len(), |i: int| pair_view(s[i]))
}

/// Compare two (priority, source position) pairs in cascade order.
fn pair_le_exec(a: (Specificity, usize), b: (Specificity, usize)) -> (r: bool)
    ensures
        r == pair_le(pair_view(a), pair_view(b)),
{
    if a.0.0 != b.0.0 {
        a.0.0 < b.0.0
    } else if a.0.1 != b.0.1 {
        a.0.1 < b.0.1
    } else if a.0.2 != b.0.2 {
        a.0.2 < b.0.2
    } else {
        a.1 <= b.1
    }
}

/// The priority of a rule at a node: the highest specificity among its
/// matching selectors, or `None` if the rule does not match the node.
pub fn matching_selector_specificity(
    rule: &Rule,
    tag_name: &String,
    id: &Option<String>,
    class: &Vec<String>,
) -> (r: Option<Specificity>)
    ensures
        match r {
            Some(pr) => rule_match_specificity(
                rule.deep_view().selectors,
                tag_name@,
                id.deep_view(),
                class.deep_view(),
            ) == Some((pr.0 as int, pr.1 as int, pr.2 as int)),
            None => rule_match_specificity(
                rule.deep_view().selectors,
                tag_name@,
                id.deep_view(),
                class.deep_view(),
            ) is None,
        },
{
    let ghost sels = rule.deep_view().selectors;
    let mut best: Option<Specificity> = None;
    let mut i: usize = 0;
    while i < rule.selectors.len()
        invariant
            i <= rule.selectors@.len(),
            sels == rule.deep_view().selectors,
            sels.len() == rule.selectors@.len(),
            match best {
                Some(pr) => rule_match_specificity(
                    sels.take(i as int),
                    tag_name@,
                    id.deep_view(),
                    class.deep_view(),
                ) == Some((pr.0 as int, pr.1 as int, pr.2 as int)),
                None => rule_match_specificity(
                    sels.take(i as int),
                    tag_name@,
                    id.deep_view(),
                    class.deep_view(),
                ) is None,
            },
        decreases rule.selectors@.len() - i,
    {
        proof {
            assert(sels[i as int] == rule.selectors@[i as int].deep_view());
            assert(sels.take(i + 1).drop_last() =~= sels.take(i as int));
            assert(sels.take(i + 1).last() == sels[i as int]);
        }
        let sel = &rule.selectors[i];
        if selector_matches(sel, tag_name, id, class) {
            let sp = sel.specificity();
            best = match best {
                None => Some(sp),
                Some(b) => if specificity_le(b, sp) {
                    Some(sp)
                } else {
                    Some(b)
                },
            };
        }
        i = i + 1;
    }
    proof {
        assert(sels.take(rule.selectors@.len() as int) =~= sels);
    }
    best
}

/// Sort (priority, source position) pairs ascending in cascade order with
/// an insertion sort.
fn sort_pairs_exec(input: Vec<(Specificity, usize)>) -> (r: Vec<(Specificity, usize)>)
    ensures
        pairs_view(r@) == sort_pairs(pairs_view(input@)),
{
    let mut out: Vec<(Specificity, usize)> = Vec::new();
    let mut i: usize = 0;
    proof {
        assert(pairs_view(out@) =~= Seq::<((int, int, int), int)>::empty());
        assert(pairs_view(input@.subrange(0, 0)) =~= Seq::<((int, int, int), int)>::empty());
    }
    while i < input.len()
        invariant
            i <= input@.len(),
            pairs_view(out@) == sort_pairs(pairs_view(input@.subrange(0, i as int))),
            pairs_sorted(pairs_view(out@)),
        decreases input@.len() - i,
    {
        let ghost out_before = pairs_view(out@);
        let x = input[i];
        let ghost xd = pair_view(x);
        let mut k: usize = 0;
        while k < out.len() && pair_le_exec(out[k], x)
            invariant
                k <= out@.len(),
                xd == pair_view(x),
                pairs_view(out@).len() == out@.len(),
                forall|j: int| 0 <= j < k ==> pair_le(#[trigger] pairs_view(out@)[j], xd),
            decreases out@.len() - k,
        {
            proof {
                assert(pairs_view(out@)[k as int] == pair_view(out@[k as int]));
            }
            k = k + 1;
        }
        proof {
            let od = pairs_view(out@);
            if (k as int) < od.len() {
                assert(od[k as int] == pair_view(out@[k as int]));
                assert(!pair_le(od[k as int], xd));
            }
            assert forall|j: int| k <= j < od.len() implies !pair_le(#[trigger] od[j], xd) by {
                assert(pair_le(od[k as int], od[j]));
            }
            lemma_insert_pair_at(xd, od, k as int);
        }
        out.insert(k, x);
        proof {
            let od = out_before;
            assert(pairs_view(out@) =~= od.subrange(0, k as int) + seq![xd] + od.subrange(
                k as int,
                od.len() as int,
            ));
            assert(pairs_view(out@) == insert_sorted_pair(xd, od));
            assert(pairs_view(input@.subrange(0, i + 1)).drop_last() =~= pairs_view(
                input@.subrange(0, i as int),
            ));
            assert(pairs_view(input@.subrange(0, i + 1)).last() == pair_view(input@[i as int]));
            assert(pairs_view(out@) == sort_pairs(pairs_view(input@.subrange(0, i + 1))));
            assert forall|a: int, b: int|
                0 <= a < b < pairs_view(out@).len() implies pair_le(
                #[trigger] pairs_view(out@)[a],
                #[trigger] pairs_view(out@)[b],
            ) by {
                let nd = pairs_view(out@);
                if b < k {
                    assert(nd[a] == od[a] && nd[b] == od[b]);
                } else if b == k {
                    assert(nd[b] == xd);
                    if a < k {
                        assert(nd[a] == od[a]);
                    }
                } else {
                    assert(nd[b] == od[b - 1]);
                    if a < k {
                        assert(nd[a] == od[a]);
                    } else if a == k {
                        assert(nd[a] == xd);
                        assert(!pair_le(od[b - 1], xd));
                    } else {
                        assert(nd[a] == od[a - 1]);
                    }
                }
            }
        }
        i = i + 1;
    }
    proof {
        assert(input@.subrange(0, input@.len() as int) =~= input@);
    }
    out
}

/// Resolve the effective property values at a node: the declarations of
/// every matching rule, written in ascending (priority, source order), so
/// that the highest-priority, latest declaration of each property wins.
pub fn specified_values(
    tag_name: &String,
    id: &Option<String>,
    class: &Vec<String>,
    stylesheet: &Stylesheet,
) -> (r: PropertyMap)
    ensures
        r.wf(),
        r@ == spec_specified_values(
            stylesheet.deep_view(),
            tag_name@,
            id.deep_view(),
            class.deep_view(),
        ),
{
    let ghost rules_dv = stylesheet.deep_view();
    let mut pairs: Vec<(Specificity, usize)> = Vec::new();
    let mut i: usize = 0;
    proof {
        assert(pairs_view(pairs@) =~= Seq::<((int, int, int), int)>::empty());
        assert(rules_dv.take(0) =~= Seq::<SpecRule>::empty());
    }
    while i < stylesheet.rules.len()
        invariant
            i <= stylesheet.rules@.len(),
            rules_dv == stylesheet.deep_view(),
            rules_dv.len() == stylesheet.rules@.len(),
            pairs_view(pairs@) == matching_rules(
                rules_dv.take(i as int),
                tag_name@,
                id.deep_view(),
                class.deep_view(),
            ),
            pairs_bounded(pairs_view(pairs@), i as int),
        decreases stylesheet.rules@.len() - i,
    {
        proof {
            assert(rules_dv[i as int] == stylesheet.rules@[i as int].deep_view());
            assert(rules_dv.take(i + 1).drop_last() =~= rules_dv.take(i as int));
            assert(rules_dv.take(i + 1).last() == rules_dv[i as int]);
        }
        let ghost pairs_before = pairs_view(pairs@);
        match matching_selector_specificity(&stylesheet.rules[i], tag_name, id, class) {
            Some(pr) => {
                pairs.push((pr, i));
                proof {
                    assert(pairs_view(pairs@) =~= pairs_before.push(
                        ((pr.0 as int, pr.1 as int, pr.2 as int), i as int),
                    ));
                }
            },
            None => {},
        }
        i = i + 1;
    }
    proof {
        assert(rules_dv.take(stylesheet.rules@.len() as int) =~= rules_dv);
        lemma_sort_pairs_bounded(pairs_view(pairs@), rules_dv.len() as int);
    }
    let sorted = sort_pairs_exec(pairs);
    let mut map = PropertyMap::new();
    let mut k: usize = 0;
    proof {
        assert(pairs_view(sorted@).take(0) =~= Seq::<((int, int, int), int)>::empty());
    }
    while k < sorted.len()
        invariant
            map.wf(),
            k <= sorted@.len(),
            rules_dv == stylesheet.deep_view(),
            rules_dv.len() == stylesheet.rules@.len(),
            pairs_view(sorted@) == sort_pairs(
                matching_rules(rules_dv, tag_name@, id.deep_view(), class.deep_view()),
            ),
            pairs_bounded(pairs_view(sorted@), rules_dv.len() as int),
            pairs_view(sorted@).len() == sorted@.len(),
            map@ == apply_rules(
                Map::empty(),
                pairs_view(sorted@).take(k as int),
                rules_dv,
            ),
        decreases sorted@.len() - k,
    {
        proof {
            assert(pairs_view(sorted@)[k as int] == pair_view(sorted@[k as int]));
        }
        let idx = sorted[k].1;
        let rule = &stylesheet.rules[idx];
        let ghost m0 = map@;
        let ghost decls = rule.deep_view().declarations;
        proof {
            assert(rule.deep_view() == rules_dv[idx as int]);
            assert(decls.take(0) =~= Seq::<SpecDeclaration>::empty());
        }
        let mut j: usize = 0;
        while j < rule.declarations.len()
            invariant
                map.wf(),
                j <= rule.declarations@.len(),
                decls == rule.deep_view().declarations,
                decls.len() == rule.declarations@.len(),
                map@ == apply_decls(m0, decls.take(j as int)),
            decreases rule.declarations@.len() - j,
        {
            proof {
                assert(decls[j as int] == rule.declarations@[j as int].deep_view());
                assert(decls.take(j + 1).drop_last() =~= decls.take(j as int));
                assert(decls.take(j + 1).last() == decls[j as int]);
            }
            let d = &rule.declarations[j];
            map.insert(d.name.clone(), clone_value(&d.value));
            j = j + 1;
        }
        proof {
            assert(decls.take(rule.declarations@.len() as int) =~= decls);
            assert(pairs_view(sorted@).take(k + 1).drop_last() =~= pairs_view(sorted@).take(
                k as int,
            ));
            assert(pairs_view(sorted@).take(k + 1).last() == pairs_view(sorted@)[k as int]);
            assert(map@ == apply_rules(
                Map::empty(),
                pairs_view(sorted@).take(k + 1),
                rules_dv,
            ));
        }
        k = k + 1;
    }
    proof {
        assert(pairs_view(sorted@).take(sorted@.len() as int) =~= pairs_view(sorted@));
    }
    map
}

/// The kind of box an element generates.
#[derive(Clone, Copy, PartialEq, Eq, Structural, Debug)]
pub enum Display {
    Inline,
    Block,
    DisplayNone,
}

/// A content node together with its resolved property values and its styled
/// children. The node is borrowed from the content tree, which the style
/// tree never outlives or mutates.
pub struct StyledNode<'a> {
    pub node: &'a Node,
    pub specified_values: PropertyMap,
    pub children: Vec<StyledNode<'a>>,
}

/// The value a lookup with a fallback resolves to: the value under `name`
/// if present, else the value under `fallback`, else the default.
pub open spec fn spec_lookup(
    m: Map<Seq<char>, SpecValue>,
    name: Seq<char>,
    fallback: Seq<char>,
    default: SpecValue,
) -> SpecValue {
    if m.contains_key(name) {
        m[name]
    } else if m.contains_key(fallback) {
        m[fallback]
    } else {
        default
    }
}

/// What the `display` property resolves to: the keywords `block` and `none`
/// name their kinds; an absent or unrecognized value is inline.
pub open spec fn spec_display(m: Map<Seq<char>, SpecValue>) -> Display {
    if m.contains_key("display"@) {
        match m["display"@] {
            SpecValue::Keyword(k) => if k == "block"@ {
                Display::Block
            } else if k == "none"@ {
                Display::DisplayNone
            } else {
                Display::Inline
            },
            SpecValue::Length(t, u) => Display::Inline,
            SpecValue::ColorValue(c) => Display::Inline,
        }
    } else {
        Display::Inline
    }
}

impl<'a> StyledNode<'a> {
    /// The resolved value of a property, if it has one.
    pub fn value(&self, name: &str) -> (r: Option<Value>)
        requires
            self.specified_values.wf(),
        ensures
            match r {
                Some(v) => self.specified_values@.contains_key(name@) && v.deep_view()
                    == self.specified_values@[name@],
                None => !self.specified_values@.contains_key(name@),
            },
    {
        match self.specified_values.get(name) {
            Some(v) => Some(clone_value(v)),
            None => None,
        }
    }

    /// The resolved value of property `name`, or of property `fallback_name`
    /// if `name` has none, or `default` if neither has one.
    pub fn lookup(&self, name: &str, fallback_name: &str, default: &Value) -> (r: Value)
        requires
            self.specified_values.wf(),
        ensures
            r.deep_view() == spec_lookup(
                self.specified_values@,
                name@,
                fallback_name@,
                default.deep_view(),
            ),
    {
        match self.value(name) {
            Some(v) => v,
            None => match self.value(fallback_name) {
                Some(v) => v,
                None => clone_value(default),
            },
        }
    }

    /// The value of the `display` property; absent or unrecognized values
    /// default to inline.
    pub fn display(&self) -> (r: Display)
        requires
            self.specified_values.wf(),
        ensures
            r == spec_display(self.specified_values@),
    {
        match self.specified_values.get("display") {
            Some(v) => match v {
                Value::Keyword(s) => {
                    if str_eq(s.as_str(), "block") {
                        Display::Block
                    } else if str_eq(s.as_str(), "none") {
                        Display::DisplayNone
                    } else {
                        Display::Inline
                    }
                },
                Value::Length(t, u) => Display::Inline,
                Value::ColorValue(c) => Display::Inline,
            },
            None => Display::Inline,
        }
    }
}

} // verus!
