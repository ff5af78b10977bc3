//! Applying a stylesheet to a document tree: selector matching, the cascade,
//! and the tree of styled nodes.
use vstd::prelude::*;
use crate::css::{
    le_specificity, specificity_le, str_eq, Declaration, Rule, Selector, SimpleSelector,
    Specificity, Stylesheet, Value,
};
use crate::dom::{ElementData, Node, NodeType};

verus! {

/// The map that a list of `(name, value)` entries stands for: a later entry
/// for a name overrides an earlier one.
pub open spec fn entries_map(s: Seq<(String, Value)>) -> Map<Seq<char>, Value>
    decreases s.len(),
{
    if s.len() == 0 {
        Map::empty()
    } else {
        entries_map(s.drop_last()).insert(s.last().0@, s.last().1)
    }
}

/// A map from property names to values.
pub struct PropertyMap {
    pub entries: Vec<(String, Value)>,
}

impl View for PropertyMap {
    type V = Map<Seq<char>, Value>;

    open spec fn view(&self) -> Map<Seq<char>, Value> {
        entries_map(self.entries@)
    }
}

proof fn lemma_entries_last(s: Seq<(String, Value)>, i: int)
    requires
        0 <= i < s.len(),
        forall|k: int| i < k < s.len() ==> s[k].0@ != s[i].0@,
    ensures
        entries_map(s).contains_key(s[i].0@),
        entries_map(s)[s[i].0@] == s[i].1,
    decreases s.len(),
{
    if i < s.len() - 1 {
        lemma_entries_last(s.drop_last(), i);
    }
}

proof fn lemma_entries_absent(s: Seq<(String, Value)>, k: Seq<char>)
    requires
        forall|j: int| 0 <= j < s.len() ==> s[j].0@ != k,
    ensures
        !entries_map(s).contains_key(k),
    decreases s.len(),
{
    if s.len() > 0 {
        lemma_entries_absent(s.drop_last(), k);
    }
}

impl PropertyMap {
    pub fn new() -> (r: PropertyMap)
        ensures
            r@ == Map::<Seq<char>, Value>::empty(),
    {
        PropertyMap { entries: Vec::new() }
    }

    /// Set `name` to `value`, replacing any earlier value.
    pub fn insert(&mut self, name: String, value: Value)
        ensures
            final(self)@ == old(self)@.insert(name@, value),
    {
        self.entries.push((name, value));
        assert(self.entries@.drop_last() =~= old(self).entries@);
    }

    /// The value of `name`, if the map has one.
    pub fn get(&self, name: &str) -> (r: Option<&Value>)
        ensures
            self@.contains_key(name@) ==> r == Some(&self@[name@]),
            !self@.contains_key(name@) ==> r.is_none(),
    {
        let mut i: usize = self.entries.len();
        while i > 0
            invariant
                i <= self.entries@.len(),
                forall|j: int| i <= j < self.entries@.len() ==> self.entries@[j].0@ != name@,
            decreases i,
        {
            if str_eq(self.entries[i - 1].0.as_str(), name) {
                proof {
                    lemma_entries_last(self.entries@, i - 1);
                }
                return Some(&self.entries[i - 1].1);
            }
            i = i - 1;
        }
        proof {
            lemma_entries_absent(self.entries@, name@);
        }
        None
    }
}

/// A document node with the property values that the stylesheet gives it.
pub struct StyledNode<'a> {
    pub node: &'a Node,
    pub specified_values: PropertyMap,
    pub children: Vec<StyledNode<'a>>,
}

#[derive(PartialEq, Eq, Structural, Clone, Copy, Debug)]
pub enum Display {
    Inline,
    Block,
    Hidden,
}

/// The optional value of a property in a map.
pub open spec fn value_of(m: Map<Seq<char>, Value>, name: Seq<char>) -> Option<Value> {
    if m.contains_key(name) {
        Some(m[name])
    } else {
        None
    }
}

/// The value of `name`, else of `fallback`, else `default`.
pub open spec fn lookup_of(
    m: Map<Seq<char>, Value>,
    name: Seq<char>,
    fallback: Seq<char>,
    default: Value,
) -> Value {
    if m.contains_key(name) {
        m[name]
    } else if m.contains_key(fallback) {
        m[fallback]
    } else {
        default
    }
}

/// The display mode a property map gives: `block` and `none` as written,
/// anything else (or nothing) inline.
pub open spec fn display_of(m: Map<Seq<char>, Value>) -> Display {
    match value_of(m, "display"@) {
        Some(Value::Keyword(s)) => if s@ == "block"@ {
            Display::Block
        } else if s@ == "none"@ {
            Display::Hidden
        } else {
            Display::Inline
        },
        _ => Display::Inline,
    }
}

impl<'a> StyledNode<'a> {
    /// The specified value of a property, if it exists.
    pub fn value(&self, name: &str) -> (r: Option<Value>)
        ensures
            r == value_of(self.specified_values@, name@),
    {
        match self.specified_values.get(name) {
            Some(v) => Some(v.clone()),
            None => None,
        }
    }

    /// The value of property `name`, or of `fallback_name` if that does not
    /// exist, or `default` if neither does.
    pub fn lookup(&self, name: &str, fallback_name: &str, default: &Value) -> (r: Value)
        ensures
            r == lookup_of(self.specified_values@, name@, fallback_name@, *default),
    {
        match self.value(name) {
            Some(v) => v,
            None => match self.value(fallback_name) {
                Some(v) => v,
                None => default.clone(),
            },
        }
    }

    /// The value of the `display` property (inline by default).
    pub fn display(&self) -> (r: Display)
        ensures
            r == display_of(self.specified_values@),
    {
        proof {
            reveal_strlit("display");
            reveal_strlit("block");
            reveal_strlit("none");
        }
        match self.value("display") {
            Some(Value::Keyword(s)) => {
                if str_eq(s.as_str(), "block") {
                    Display::Block
                } else if str_eq(s.as_str(), "none") {
                    Display::Hidden
                } else {
                    Display::Inline
                }
            },
            _ => Display::Inline,
        }
    }
}

/// Whether a simple selector matches an element: its tag name (if any) is the
/// element's, its id (if any) is the element's, and each of its classes is
/// one of the element's.
pub open spec fn simple_matches(e: ElementData, s: SimpleSelector) -> bool {
    &&& match s.tag_name {
        Some(t) => t@ == e.tag_name@,
        None => true,
    }
    &&& match s.id {
        Some(id) => match e.id {
            Some(eid) => eid@ == id@,
            None => false,
        },
        None => true,
    }
    &&& forall|k: int| 0 <= k < s.class.len() ==> has_class_named(e, #[trigger] s.class@[k]@)
}

/// Whether one of the element's classes is `c`.
pub open spec fn has_class_named(e: ElementData, c: Seq<char>) -> bool {
    exists|j: int| 0 <= j < e.classes.len() && e.classes@[j]@ == c
}

pub open spec fn selector_matches(e: ElementData, s: Selector) -> bool {
    match s {
        Selector::Simple(ss) => simple_matches(e, ss),
    }
}

/// The specificity of the first selector of `sels` that matches `e`, if any does.
pub open spec fn rule_rank(e: ElementData, sels: Seq<Selector>) -> Option<Specificity>
    decreases sels.len(),
{
    if sels.len() == 0 {
        None
    } else if selector_matches(e, sels[0]) {
        Some(sels[0].spec_specificity())
    } else {
        rule_rank(e, sels.drop_first())
    }
}

/// A rule that matched, by its rank and its index in the stylesheet.
pub type MatchedRule = (Specificity, usize);

/// The rules that match `e`, in source order, with their ranks.
pub open spec fn matched_rules(e: ElementData, rules: Seq<Rule>) -> Seq<MatchedRule>
    decreases rules.len(),
{
    if rules.len() == 0 {
        Seq::empty()
    } else {
        let before = matched_rules(e, rules.drop_last());
        match rule_rank(e, rules.last().selectors@) {
            Some(s) => before.push((s, (rules.len() - 1) as usize)),
            None => before,
        }
    }
}

/// Puts `x` after every trailing entry of `t` that ranks at most as high.
pub open spec fn insert_ranked(t: Seq<MatchedRule>, x: MatchedRule) -> Seq<MatchedRule>
    decreases t.len(),
{
    if t.len() == 0 {
        seq![x]
    } else if specificity_le(t.last().0, x.0) {
        t.push(x)
    } else {
        insert_ranked(t.drop_last(), x).push(t.last())
    }
}

/// The stable sort of matched rules by ascending specificity.
pub open spec fn sort_ranked(s: Seq<MatchedRule>) -> Seq<MatchedRule>
    decreases s.len(),
{
    if s.len() == 0 {
        Seq::empty()
    } else {
        insert_ranked(sort_ranked(s.drop_last()), s.last())
    }
}

/// `m` with the declarations applied in order.
pub open spec fn apply_decls(m: Map<Seq<char>, Value>, ds: Seq<Declaration>) -> Map<
    Seq<char>,
    Value,
>
    decreases ds.len(),
{
    if ds.len() == 0 {
        m
    } else {
        apply_decls(m, ds.drop_last()).insert(ds.last().name@, ds.last().value)
    }
}

/// `m` with the declarations of each ranked rule applied in order.
pub open spec fn apply_rules(m: Map<Seq<char>, Value>, rs: Seq<MatchedRule>, rules: Seq<Rule>) -> Map<
    Seq<char>,
    Value,
>
    decreases rs.len(),
{
    if rs.len() == 0 {
        m
    } else {
        apply_decls(apply_rules(m, rs.drop_last(), rules), rules[rs.last().1 as int].declarations@)
    }
}

/// The property map that the cascade gives an element: the declarations of
/// every matching rule, applied from the lowest rank to the highest, rules of
/// equal rank in source order.
pub open spec fn cascade(e: ElementData, sheet: Stylesheet) -> Map<Seq<char>, Value> {
    apply_rules(Map::empty(), sort_ranked(matched_rules(e, sheet.rules@)), sheet.rules@)
}

/// The property map of a document node: the cascade for an element, nothing
/// for text.
pub open spec fn node_values(n: Node, sheet: Stylesheet) -> Map<Seq<char>, Value> {
    match n.node_type {
        NodeType::Element(e) => cascade(e, sheet),
        NodeType::Text(_) => Map::empty(),
    }
}

/// `s` is the styled tree of `n`: one styled node per document node, in
/// document order, each with the property map of its node.
pub open spec fn is_style_tree(s: StyledNode, n: Node, sheet: Stylesheet) -> bool
    decreases n,
{
    &&& *s.node == n
    &&& s.specified_values@ == node_values(n, sheet)
    &&& s.children.len() == n.children.len()
    &&& forall|i: int|
        0 <= i < n.children.len() ==> is_style_tree(
            #[trigger] s.children@[i],
            n.children@[i],
            sheet,
        )
}

proof fn lemma_insert_at(t: Seq<MatchedRule>, x: MatchedRule, j: int)
    requires
        0 <= j <= t.len(),
        j == 0 || specificity_le(t[j - 1].0, x.0),
        forall|k: int| j <= k < t.len() ==> !specificity_le(#[trigger] t[k].0, x.0),
    ensures
        insert_ranked(t, x) == t.insert(j, x),
    decreases t.len(),
{
    if t.len() == 0 {
        assert(t.insert(j, x) =~= seq![x]);
    } else if j == t.len() {
        assert(t.insert(j, x) =~= t.push(x));
    } else {
        lemma_insert_at(t.drop_last(), x, j);
        assert(t.insert(j, x) =~= t.drop_last().insert(j, x).push(t.last()));
    }
}

/// Apply a stylesheet to a whole document tree.
pub fn style_tree<'a>(root: &'a Node, stylesheet: &'a Stylesheet) -> (r: StyledNode<'a>)
    ensures
        is_style_tree(r, *root, *stylesheet),
    decreases root,
{
    let specified_values = match &root.node_type {
        NodeType::Element(elem) => specified_values(elem, stylesheet),
        NodeType::Text(_) => PropertyMap::new(),
    };
    let mut children: Vec<StyledNode<'a>> = Vec::new();
    let mut i: usize = 0;
    while i < root.children.len()
        invariant
            i <= root.children@.len(),
            children@.len() == i,
            forall|k: int|
                0 <= k < i ==> is_style_tree(
                    #[trigger] children@[k],
                    root.children@[k],
                    *stylesheet,
                ),
        decreases root.children@.len() - i,
    {
        assert(decreases_to!(root => root.children@[i as int]));
        children.push(style_tree(&root.children[i], stylesheet));
        i = i + 1;
    }
    StyledNode { node: root, specified_values, children }
}

/// The property map that the stylesheet gives an element.
pub fn specified_values(elem: &ElementData, stylesheet: &Stylesheet) -> (r: PropertyMap)
    ensures
        r@ == cascade(*elem, *stylesheet),
{
    let rules = matching_rules(elem, stylesheet);
    let n = stylesheet.rules.len();

    // Stable sort by ascending specificity.
    let mut sorted: Vec<MatchedRule> = Vec::new();
    let mut i: usize = 0;
    while i < rules.len()
        invariant
            i <= rules@.len(),
            sorted@ == sort_ranked(rules@.take(i as int)),
            forall|k: int| 0 <= k < rules@.len() ==> (#[trigger] rules@[k]).1 < n,
            forall|k: int| 0 <= k < sorted@.len() ==> (#[trigger] sorted@[k]).1 < n,
        decreases rules@.len() - i,
    {
        let x = rules[i];
        let mut j: usize = sorted.len();
        while j > 0 && !le_specificity(sorted[j - 1].0, x.0)
            invariant
                j <= sorted@.len(),
                forall|k: int| j <= k < sorted@.len() ==> !specificity_le(#[trigger] sorted@[k].0, x.0),
            decreases j,
        {
            j = j - 1;
        }
        proof {
            lemma_insert_at(sorted@, x, j as int);
            assert(rules@.take(i + 1).drop_last() =~= rules@.take(i as int));
        }
        let ghost before = sorted@;
        sorted.insert(j, x);
        assert forall|k: int| 0 <= k < sorted@.len() implies (#[trigger] sorted@[k]).1 < n by {
            if k < j {
                assert(sorted@[k] == before[k]);
            } else if k > j {
                assert(sorted@[k] == before[k - 1]);
            }
        }
        i = i + 1;
    }
    assert(rules@.take(rules@.len() as int) =~= rules@);

    // Apply the declarations from the lowest rank to the highest.
    let mut values = PropertyMap::new();
    let mut i: usize = 0;
    while i < sorted.len()
        invariant
            i <= sorted@.len(),
            sorted@ == sort_ranked(matched_rules(*elem, stylesheet.rules@)),
            forall|k: int| 0 <= k < sorted@.len() ==> (#[trigger] sorted@[k]).1 < n,
            n == stylesheet.rules@.len(),
            values@ == apply_rules(Map::empty(), sorted@.take(i as int), stylesheet.rules@),
        decreases sorted@.len() - i,
    {
        let decls = &stylesheet.rules[sorted[i].1].declarations;
        let ghost base = apply_rules(Map::empty(), sorted@.take(i as int), stylesheet.rules@);
        let mut j: usize = 0;
        while j < decls.len()
            invariant
                j <= decls@.len(),
                values@ == apply_decls(base, decls@.take(j as int)),
            decreases decls@.len() - j,
        {
            proof {
                assert(decls@.take(j + 1).drop_last() =~= decls@.take(j as int));
            }
            values.insert(decls[j].name.clone(), decls[j].value.clone());
            j = j + 1;
        }
        proof {
            assert(decls@.take(decls@.len() as int) =~= decls@);
            assert(sorted@.take(i + 1).drop_last() =~= sorted@.take(i as int));
        }
        i = i + 1;
    }
    assert(sorted@.take(sorted@.len() as int) =~= sorted@);
    values
}

/// The rules of the stylesheet that match the element, in source order.
fn matching_rules(elem: &ElementData, stylesheet: &Stylesheet) -> (r: Vec<MatchedRule>)
    ensures
        r@ == matched_rules(*elem, stylesheet.rules@),
        forall|k: int| 0 <= k < r@.len() ==> (#[trigger] r@[k]).1 < stylesheet.rules@.len(),
{
    let mut r: Vec<MatchedRule> = Vec::new();
    let mut i: usize = 0;
    while i < stylesheet.rules.len()
        invariant
            i <= stylesheet.rules@.len(),
            r@ == matched_rules(*elem, stylesheet.rules@.take(i as int)),
            forall|k: int| 0 <= k < r@.len() ==> (#[trigger] r@[k]).1 < i,
        decreases stylesheet.rules@.len() - i,
    {
        proof {
            assert(stylesheet.rules@.take(i + 1).drop_last() =~= stylesheet.rules@.take(i as int));
        }
        match match_rule(elem, &stylesheet.rules[i], i) {
            Some(m) => r.push(m),
            None => {},
        }
        i = i + 1;
    }
    assert(stylesheet.rules@.take(i as int) =~= stylesheet.rules@);
    r
}

/// The rank of `rule` (at index `index`) if one of its selectors matches:
/// the specificity of the first selector that does.
fn match_rule(elem: &ElementData, rule: &Rule, index: usize) -> (r: Option<MatchedRule>)
    ensures
        r == match rule_rank(*elem, rule.selectors@) {
            Some(s) => Some((s, index)),
            None => None::<MatchedRule>,
        },
{
    let sels = &rule.selectors;
    let mut i: usize = 0;
    assert(sels@.skip(0) =~= sels@);
    while i < sels.len()
        invariant
            sels == &rule.selectors,
            i <= sels@.len(),
            rule_rank(*elem, sels@) == rule_rank(*elem, sels@.skip(i as int)),
        decreases sels@.len() - i,
    {
        assert(sels@.skip(i as int).drop_first() =~= sels@.skip(i + 1));
        if matches(elem, &sels[i]) {
            assert(sels@.skip(i as int)[0] == sels@[i as int]);
            let sp = sels[i].specificity();
            return Some((sp, index));
        }
        i = i + 1;
    }
    None
}

/// Whether a selector matches an element.
pub fn matches(elem: &ElementData, selector: &Selector) -> (r: bool)
    ensures
        r == selector_matches(*elem, *selector),
{
    match selector {
        Selector::Simple(simple_selector) => matches_simple_selector(elem, simple_selector),
    }
}

/// Whether the element has a class of this name.
fn has_class(elem: &ElementData, class: &String) -> (r: bool)
    ensures
        r == has_class_named(*elem, class@),
{
    let classes = elem.classes();
    let mut j: usize = 0;
    while j < classes.len()
        invariant
            classes == &elem.classes,
            j <= classes@.len(),
            forall|k: int| 0 <= k < j ==> (#[trigger] classes@[k])@ != class@,
        decreases classes@.len() - j,
    {
        if classes[j] == *class {
            assert(elem.classes@[j as int]@ == class@);
            return true;
        }
        j = j + 1;
    }
    false
}

fn matches_simple_selector(elem: &ElementData, selector: &SimpleSelector) -> (r: bool)
    ensures
        r == simple_matches(*elem, *selector),
{
    // Tag name.
    match &selector.tag_name {
        Some(name) => {
            if !(elem.tag_name == *name) {
                return false;
            }
        },
        None => {},
    }
    // Id.
    match &selector.id {
        Some(id) => match elem.id() {
            Some(eid) => {
                if !(*eid == *id) {
                    return false;
                }
            },
            None => {
                return false;
            },
        },
        None => {},
    }
    // Classes.
    let mut k: usize = 0;
    while k < selector.class.len()
        invariant
            k <= selector.class@.len(),
            forall|m: int| 0 <= m < k ==> has_class_named(*elem, #[trigger] selector.class@[m]@),
        decreases selector.class@.len() - k,
    {
        if !has_class(elem, &selector.class[k]) {
            assert(!simple_matches(*elem, *selector)) by {
                assert(selector.class@[k as int]@ == selector.class[k as int]@);
            }
            return false;
        }
        k = k + 1;
    }
    true
}

/// Styling is deterministic: two style trees of the same document under the
/// same stylesheet give every node the same property map.
pub proof fn lemma_style_deterministic(s1: StyledNode, s2: StyledNode, n: Node, sheet: Stylesheet)
    requires
        is_style_tree(s1, n, sheet),
        is_style_tree(s2, n, sheet),
    ensures
        s1.specified_values@ == s2.specified_values@,
        s1.children.len() == s2.children.len(),
        forall|i: int|
            0 <= i < s1.children.len() ==> (#[trigger] s1.children@[i]).specified_values@
                == s2.children@[i].specified_values@,
    decreases n,
{
    assert forall|i: int|
        0 <= i < s1.children.len() implies (#[trigger] s1.children@[i]).specified_values@
            == s2.children@[i].specified_values@ by {
        assert(is_style_tree(s1.children@[i], n.children@[i], sheet));
        assert(is_style_tree(s2.children@[i], n.children@[i], sheet));
    }
}

proof fn lemma_two_rules(e: ElementData, sheet: Stylesheet, s0: Specificity, s1: Specificity)
    requires
        sheet.rules@.len() == 2,
        rule_rank(e, sheet.rules@[0].selectors@) == Some(s0),
        rule_rank(e, sheet.rules@[1].selectors@) == Some(s1),
    ensures
        matched_rules(e, sheet.rules@) == seq![(s0, 0usize), (s1, 1usize)],
{
    let rules = sheet.rules@;
    assert(rules.drop_last().drop_last() =~= Seq::<Rule>::empty());
    assert(rules.drop_last().last() == rules[0]);
    assert(matched_rules(e, rules.drop_last().drop_last()) == Seq::<MatchedRule>::empty());
    assert(matched_rules(e, rules.drop_last()) =~= seq![(s0, 0usize)]);
    assert(matched_rules(e, rules) =~= seq![(s0, 0usize), (s1, 1usize)]);
}

proof fn lemma_single_declaration(m: Map<Seq<char>, Value>, d: Declaration, ds: Seq<Declaration>)
    requires
        ds == seq![d],
    ensures
        apply_decls(m, ds) == m.insert(d.name@, d.value),
{
    assert(ds.drop_last() =~= Seq::<Declaration>::empty());
    assert(apply_decls(m, ds.drop_last()) == m);
    assert(ds.last() == d);
}

proof fn lemma_sort_one(x: MatchedRule)
    ensures
        sort_ranked(seq![x]) == seq![x],
{
    assert(seq![x].drop_last() =~= Seq::<MatchedRule>::empty());
    assert(sort_ranked(seq![x].drop_last()) == Seq::<MatchedRule>::empty());
    assert(insert_ranked(Seq::<MatchedRule>::empty(), x) == seq![x]);
}

proof fn lemma_insert_after_one(a: MatchedRule, x: MatchedRule)
    ensures
        specificity_le(a.0, x.0) ==> insert_ranked(seq![a], x) == seq![a, x],
        !specificity_le(a.0, x.0) ==> insert_ranked(seq![a], x) == seq![x, a],
{
    assert(seq![a].drop_last() =~= Seq::<MatchedRule>::empty());
    assert(seq![a].last() == a);
    assert(insert_ranked(Seq::<MatchedRule>::empty(), x) == seq![x]);
    assert(seq![a].push(x) =~= seq![a, x]);
    assert(seq![x].push(a) =~= seq![x, a]);
}

/// A rule whose matching selector has an id wins over one whose matching
/// selector has none, wherever they stand in the stylesheet: here the id
/// rule comes first and both set the same property.
pub proof fn lemma_id_beats_class(e: ElementData, sheet: Stylesheet, id_sel: Selector, class_sel: Selector)
    requires
        sheet.rules@.len() == 2,
        sheet.rules@[0].selectors@ == seq![id_sel],
        sheet.rules@[1].selectors@ == seq![class_sel],
        id_sel->Simple_0.id.is_some(),
        class_sel->Simple_0.id.is_none(),
        selector_matches(e, id_sel),
        selector_matches(e, class_sel),
        sheet.rules@[0].declarations@.len() == 1,
        sheet.rules@[1].declarations@.len() == 1,
        sheet.rules@[0].declarations@[0].name@ == sheet.rules@[1].declarations@[0].name@,
    ensures
        cascade(e, sheet).contains_key(sheet.rules@[0].declarations@[0].name@),
        cascade(e, sheet)[sheet.rules@[0].declarations@[0].name@] == sheet.rules@[0].declarations@[0].value,
{
    let rules = sheet.rules@;
    let s0 = id_sel.spec_specificity();
    let s1 = class_sel.spec_specificity();
    assert(rule_rank(e, rules[0].selectors@) == Some(s0));
    assert(rule_rank(e, rules[1].selectors@) == Some(s1));
    lemma_two_rules(e, sheet, s0, s1);
    let ms = seq![(s0, 0usize), (s1, 1usize)];
    assert(ms.drop_last() =~= seq![(s0, 0usize)]);
    assert(seq![(s0, 0usize)].drop_last() =~= Seq::<MatchedRule>::empty());
    lemma_sort_one((s0, 0usize));
    lemma_insert_after_one((s0, 0usize), (s1, 1usize));
    assert(!specificity_le(s0, s1));
    assert(seq![(s0, 0usize)].drop_last() =~= Seq::<MatchedRule>::empty());
    let sorted = seq![(s1, 1usize), (s0, 0usize)];
    assert(ms.last() == (s1, 1usize));
    assert(sort_ranked(ms) == sorted);
    assert(sorted.drop_last() =~= seq![(s1, 1usize)]);
    assert(sorted.drop_last().drop_last() =~= Seq::<MatchedRule>::empty());
    let d0 = rules[0].declarations@[0];
    let d1 = rules[1].declarations@[0];
    assert(rules[0].declarations@ =~= seq![d0]);
    assert(rules[1].declarations@ =~= seq![d1]);
    lemma_single_declaration(Map::empty(), d1, rules[1].declarations@);
    lemma_single_declaration(Map::empty().insert(d1.name@, d1.value), d0, rules[0].declarations@);
}

/// Of two rules of equal specificity that set the same property, the later
/// one in the stylesheet wins.
pub proof fn lemma_later_rule_wins(e: ElementData, sheet: Stylesheet, sel0: Selector, sel1: Selector)
    requires
        sheet.rules@.len() == 2,
        sheet.rules@[0].selectors@ == seq![sel0],
        sheet.rules@[1].selectors@ == seq![sel1],
        sel0.spec_specificity() == sel1.spec_specificity(),
        selector_matches(e, sel0),
        selector_matches(e, sel1),
        sheet.rules@[0].declarations@.len() == 1,
        sheet.rules@[1].declarations@.len() == 1,
        sheet.rules@[0].declarations@[0].name@ == sheet.rules@[1].declarations@[0].name@,
    ensures
        cascade(e, sheet).contains_key(sheet.rules@[1].declarations@[0].name@),
        cascade(e, sheet)[sheet.rules@[1].declarations@[0].name@] == sheet.rules@[1].declarations@[0].value,
{
    let rules = sheet.rules@;
    let s0 = sel0.spec_specificity();
    let s1 = sel1.spec_specificity();
    assert(rule_rank(e, rules[0].selectors@) == Some(s0));
    assert(rule_rank(e, rules[1].selectors@) == Some(s1));
    lemma_two_rules(e, sheet, s0, s1);
    let ms = seq![(s0, 0usize), (s1, 1usize)];
    assert(ms.drop_last() =~= seq![(s0, 0usize)]);
    assert(seq![(s0, 0usize)].drop_last() =~= Seq::<MatchedRule>::empty());
    lemma_sort_one((s0, 0usize));
    lemma_insert_after_one((s0, 0usize), (s1, 1usize));
    assert(specificity_le(s0, s1));
    assert(ms.last() == (s1, 1usize));
    assert(sort_ranked(ms) == ms);
    assert(ms.drop_last().drop_last() =~= Seq::<MatchedRule>::empty());
    let d0 = rules[0].declarations@[0];
    let d1 = rules[1].declarations@[0];
    assert(rules[0].declarations@ =~= seq![d0]);
    assert(rules[1].declarations@ =~= seq![d1]);
    lemma_single_declaration(Map::empty(), d0, rules[0].declarations@);
    lemma_single_declaration(Map::empty().insert(d0.name@, d0.value), d1, rules[1].declarations@);
}

} // verus!
