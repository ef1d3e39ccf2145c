//! Node selectors: comma-separated rules on node labels, each of the form
//! `key=value` (the label has that value), `key!=value` (the label is
//! missing or has another value), `!key` (the label is missing) or `key`
//! (the label is present).

use crate::error::{RobotLBError, RobotLBResult};
use crate::lb::string_views;
use crate::string_map::StringMap;
use vstd::prelude::*;
use vstd::string::StrSliceExecFns;

verus! {

/// One rule of a node selector.
#[derive(Debug, Clone)]
pub enum Rule {
    Exists(String),
    Equal(String, String),
    NotEqual(String, String),
    DoesNotExist(String),
}

/// A rule as character sequences.
pub enum RuleView {
    Exists(Seq<char>),
    Equal(Seq<char>, Seq<char>),
    NotEqual(Seq<char>, Seq<char>),
    DoesNotExist(Seq<char>),
}

impl View for Rule {
    type V = RuleView;

    open spec fn view(&self) -> RuleView {
        match self {
            Rule::Exists(k) => RuleView::Exists(k@),
            Rule::Equal(k, v) => RuleView::Equal(k@, v@),
            Rule::NotEqual(k, v) => RuleView::NotEqual(k@, v@),
            Rule::DoesNotExist(k) => RuleView::DoesNotExist(k@),
        }
    }
}

/// The pieces of `s` between occurrences of `sep`, as `str::split` yields
/// them: the empty text gives one empty piece.
pub open spec fn split_on(s: Seq<char>, sep: char) -> Seq<Seq<char>>
    decreases s.len(),
{
    if s.len() == 0 {
        seq![Seq::empty()]
    } else {
        let earlier = split_on(s.drop_last(), sep);
        if s.last() == sep {
            earlier.push(Seq::empty())
        } else {
            earlier.update(earlier.len() - 1, earlier.last().push(s.last()))
        }
    }
}

/// The rule that one piece of a selector states: split at `=`, one part is
/// `key` or `!key`, two parts are `key=value` or `key!=value`, more parts
/// are an error (`None`).
pub open spec fn rule_of(piece: Seq<char>) -> Option<RuleView> {
    let parts = split_on(piece, '=');
    if parts.len() == 1 {
        if piece.len() > 0 && piece[0] == '!' {
            Some(RuleView::DoesNotExist(piece.drop_first()))
        } else {
            Some(RuleView::Exists(piece))
        }
    } else if parts.len() == 2 {
        let key = parts[0];
        if key.len() > 0 && key.last() == '!' {
            Some(RuleView::NotEqual(key.drop_last(), parts[1]))
        } else {
            Some(RuleView::Equal(key, parts[1]))
        }
    } else {
        None
    }
}

/// The rules of a selector, or `None` if a piece is not a rule.
pub open spec fn spec_parse_filter(s: Seq<char>) -> Option<Seq<RuleView>> {
    let pieces = split_on(s, ',');
    if forall|i: int| 0 <= i < pieces.len() ==> #[trigger] rule_of(pieces[i]) is Some {
        Some(pieces.map_values(|p: Seq<char>| rule_of(p)->0))
    } else {
        None
    }
}

/// Whether a node's labels satisfy a rule.
pub open spec fn rule_holds(rule: RuleView, labels: StringMap) -> bool {
    match rule {
        RuleView::Exists(k) => labels.spec_get(k) is Some,
        RuleView::Equal(k, v) => labels.spec_get(k) == Some(v),
        RuleView::NotEqual(k, v) => labels.spec_get(k) != Some(v),
        RuleView::DoesNotExist(k) => labels.spec_get(k) is None,
    }
}

/// Whether a node's labels satisfy every rule.
pub open spec fn rules_hold(rules: Seq<RuleView>, labels: StringMap) -> bool {
    forall|i: int| 0 <= i < rules.len() ==> #[trigger] rule_holds(rules[i], labels)
}

/// A node selector; the default one has no rules and selects every node.
#[derive(Debug, Clone)]
pub struct LabelFilter {
    rules: Vec<Rule>,
}

impl View for LabelFilter {
    type V = Seq<RuleView>;

    closed spec fn view(&self) -> Seq<RuleView> {
        self.rules@.map_values(|r: Rule| r@)
    }
}

/// The characters of a text.
fn chars_of(s: &str) -> (r: Vec<char>)
    ensures
        r@ == s@,
{
    let n = s.unicode_len();
    let mut out: Vec<char> = Vec::new();
    for i in 0..n
        invariant
            n == s@.len(),
            out@ == s@.take(i as int),
    {
        out.push(s.get_char(i));
        assert(out@ =~= s@.take(i + 1));
    }
    assert(s@.take(n as int) =~= s@);
    out
}

/// Splits `s` at every `sep`, as `str::split` does.
fn split_text(s: &str, sep: char) -> (r: Vec<String>)
    ensures
        string_views(r@) == split_on(s@, sep),
{
    let chars = chars_of(s);
    let n = chars.len();
    let mut pieces: Vec<String> = Vec::new();
    let mut start: usize = 0;
    assert(s@.take(0).len() == 0);
    assert(s@.subrange(0, 0) =~= Seq::<char>::empty());
    assert(string_views(pieces@) =~= Seq::<Seq<char>>::empty());
    assert(split_on(s@.take(0), sep) == seq![Seq::<char>::empty()]);
    assert(string_views(pieces@).push(s@.subrange(0, 0)) =~= split_on(s@.take(0), sep));
    for i in 0..n
        invariant
            n == s@.len(),
            chars@ == s@,
            start <= i,
            string_views(pieces@).push(s@.subrange(start as int, i as int)) == split_on(
                s@.take(i as int),
                sep,
            ),
    {
        let ghost before = string_views(pieces@);
        assert(s@.take(i + 1).drop_last() =~= s@.take(i as int));
        assert(s@.take(i + 1).last() == chars@[i as int]);
        if chars[i] == sep {
            let ghost old_start = start;
            pieces.push(s.substring_char(start, i).to_owned());
            start = i + 1;
            assert(string_views(pieces@) =~= before.push(s@.subrange(old_start as int, i as int)));
            assert(s@.subrange(start as int, i + 1) =~= Seq::<char>::empty());
            assert(split_on(s@.take(i + 1), sep) == split_on(s@.take(i as int), sep).push(
                Seq::empty(),
            ));
            assert(string_views(pieces@).push(s@.subrange(start as int, i + 1)) =~= split_on(
                s@.take(i + 1),
                sep,
            ));
        } else {
            assert(s@.subrange(start as int, i + 1) =~= s@.subrange(start as int, i as int).push(
                chars@[i as int],
            ));
            let ghost earlier = split_on(s@.take(i as int), sep);
            assert(earlier == before.push(s@.subrange(start as int, i as int)));
            assert(split_on(s@.take(i + 1), sep) == earlier.update(
                earlier.len() - 1,
                earlier.last().push(chars@[i as int]),
            ));
            assert(string_views(pieces@).push(s@.subrange(start as int, i + 1)) =~= split_on(
                s@.take(i + 1),
                sep,
            ));
        }
    }
    pieces.push(s.substring_char(start, n).to_owned());
    assert(s@.take(n as int) =~= s@);
    pieces
}

/// The rule that one piece of a selector states.
fn parse_rule(piece: &String) -> (r: Option<Rule>)
    ensures
        match r {
            Some(rule) => rule_of(piece@) == Some(rule@),
            None => rule_of(piece@) is None,
        },
{
    let parts = split_text(piece.as_str(), '=');
    let len = piece.as_str().unicode_len();
    if parts.len() == 1 {
        if len > 0 && piece.as_str().get_char(0) == '!' {
            let key = piece.as_str().substring_char(1, len).to_owned();
            assert(key@ =~= piece@.drop_first());
            Some(Rule::DoesNotExist(key))
        } else {
            Some(Rule::Exists(piece.clone()))
        }
    } else if parts.len() == 2 {
        let key = &parts[0];
        let value = &parts[1];
        assert(string_views(parts@)[0] == key@);
        assert(string_views(parts@)[1] == value@);
        let key_len = key.as_str().unicode_len();
        if key_len > 0 && key.as_str().get_char(key_len - 1) == '!' {
            let stripped = key.as_str().substring_char(0, key_len - 1).to_owned();
            assert(stripped@ =~= key@.drop_last());
            Some(Rule::NotEqual(stripped, value.clone()))
        } else {
            Some(Rule::Equal(key.clone(), value.clone()))
        }
    } else {
        None
    }
}

/// Whether the labels satisfy one rule.
fn check_rule(rule: &Rule, labels: &StringMap) -> (r: bool)
    ensures
        r == rule_holds(rule@, *labels),
{
    match rule {
        Rule::Exists(key) => labels.get(key.as_str()).is_some(),
        Rule::Equal(key, value) => match labels.get(key.as_str()) {
            Some(found) => *found == *value,
            None => false,
        },
        Rule::NotEqual(key, value) => match labels.get(key.as_str()) {
            Some(found) => !(*found == *value),
            None => true,
        },
        Rule::DoesNotExist(key) => labels.get(key.as_str()).is_none(),
    }
}

impl LabelFilter {
    /// The selector without rules, which selects every node.
    pub fn default() -> (f: LabelFilter)
        ensures
            f@.len() == 0,
    {
        let f = LabelFilter { rules: Vec::new() };
        assert(f@ =~= Seq::<RuleView>::empty());
        f
    }

    /// Parses a selector; a piece with more than one `=` is an
    /// `InvalidNodeFilter` error that carries the whole selector.
    pub fn from_str(s: &str) -> (r: RobotLBResult<LabelFilter>)
        ensures
            match r {
                Ok(f) => spec_parse_filter(s@) == Some(f@),
                Err(e) => spec_parse_filter(s@) is None && (e matches RobotLBError::InvalidNodeFilter(
                    text,
                ) && text@ == s@),
            },
    {
        let pieces = split_text(s, ',');
        let ghost views = split_on(s@, ',');
        let n = pieces.len();
        let mut rules: Vec<Rule> = Vec::new();
        for i in 0..n
            invariant
                n == pieces@.len(),
                string_views(pieces@) == views,
                views == split_on(s@, ','),
                rules@.len() == i,
                forall|j: int|
                    0 <= j < i ==> rule_of(views[j]) == Some(#[trigger] rules@[j]@),
        {
            assert(views[i as int] == pieces@[i as int]@);
            match parse_rule(&pieces[i]) {
                Some(rule) => rules.push(rule),
                None => {
                    return Err(RobotLBError::InvalidNodeFilter(s.to_owned()));
                },
            }
        }
        let f = LabelFilter { rules };
        assert forall|i: int| 0 <= i < views.len() implies #[trigger] rule_of(views[i]) is Some by {
            assert(rule_of(views[i]) == Some(f.rules@[i]@));
        }
        assert(f@ =~= views.map_values(|p: Seq<char>| rule_of(p)->0));
        Ok(f)
    }

    /// Whether a node with these labels is selected: every rule holds.
    pub fn check(&self, labels: &StringMap) -> (r: bool)
        ensures
            r == rules_hold(self@, *labels),
    {
        let n = self.rules.len();
        for i in 0..n
            invariant
                n == self@.len(),
                forall|j: int| 0 <= j < i ==> #[trigger] rule_holds(self@[j], *labels),
        {
            assert(self@[i as int] == self.rules@[i as int]@);
            if !check_rule(&self.rules[i], labels) {
                return false;
            }
        }
        true
    }
}

/// The selector without rules selects every node.
pub proof fn lemma_no_rules_select_all(labels: StringMap)
    ensures
        rules_hold(Seq::<RuleView>::empty(), labels),
{
}

/// Joining two selectors with a comma selects the nodes that both select.
pub proof fn lemma_rules_conjunction(first: Seq<RuleView>, second: Seq<RuleView>, labels: StringMap)
    ensures
        rules_hold(first + second, labels) <==> rules_hold(first, labels) && rules_hold(
            second,
            labels,
        ),
{
    let both = first + second;
    if rules_hold(first, labels) && rules_hold(second, labels) {
        assert forall|i: int| 0 <= i < both.len() implies #[trigger] rule_holds(both[i], labels) by {
            if i < first.len() {
                assert(both[i] == first[i]);
            } else {
                assert(both[i] == second[i - first.len()]);
            }
        }
    }
    if rules_hold(both, labels) {
        assert forall|i: int| 0 <= i < first.len() implies #[trigger] rule_holds(first[i], labels) by {
            assert(both[i] == first[i]);
        }
        assert forall|i: int| 0 <= i < second.len() implies #[trigger] rule_holds(second[i], labels) by {
            assert(both[i + first.len()] == second[i]);
        }
    }
}

/// A rule and its negation never both hold: `key=value` against
/// `key!=value`, and `key` against `!key`.
pub proof fn lemma_negated_rules_exclude(key: Seq<char>, value: Seq<char>, labels: StringMap)
    ensures
        rule_holds(RuleView::Equal(key, value), labels) != rule_holds(
            RuleView::NotEqual(key, value),
            labels,
        ),
        rule_holds(RuleView::Exists(key), labels) != rule_holds(
            RuleView::DoesNotExist(key),
            labels,
        ),
{
}

/// A `key=value` rule selects a node exactly when its label `key` is
/// present with a value equal to `value`, whole (a value that merely starts
/// or ends with `value` is another value), and `key!=value` exactly when
/// the label is missing or has another value; `key` and `!key` test only
/// whether the label is present.
pub proof fn lemma_rules_compare_whole_values(
    key: Seq<char>,
    value: Seq<char>,
    labels: StringMap,
)
    ensures
        labels.spec_get(key) is Some ==> {
            let found = labels.spec_get(key)->0;
            &&& rules_hold(seq![RuleView::Equal(key, value)], labels) <==> found == value
            &&& rules_hold(seq![RuleView::NotEqual(key, value)], labels) <==> found != value
            &&& rules_hold(seq![RuleView::Exists(key)], labels)
            &&& !rules_hold(seq![RuleView::DoesNotExist(key)], labels)
        },
        labels.spec_get(key) is None ==> {
            &&& !rules_hold(seq![RuleView::Equal(key, value)], labels)
            &&& rules_hold(seq![RuleView::NotEqual(key, value)], labels)
            &&& !rules_hold(seq![RuleView::Exists(key)], labels)
            &&& rules_hold(seq![RuleView::DoesNotExist(key)], labels)
        },
{
    let eq = seq![RuleView::Equal(key, value)];
    let ne = seq![RuleView::NotEqual(key, value)];
    let ex = seq![RuleView::Exists(key)];
    let dn = seq![RuleView::DoesNotExist(key)];
    assert(eq[0] == RuleView::Equal(key, value));
    assert(ne[0] == RuleView::NotEqual(key, value));
    assert(ex[0] == RuleView::Exists(key));
    assert(dn[0] == RuleView::DoesNotExist(key));
    assert(rules_hold(eq, labels) == rule_holds(eq[0], labels));
    assert(rules_hold(ne, labels) == rule_holds(ne[0], labels));
    assert(rules_hold(ex, labels) == rule_holds(ex[0], labels));
    assert(rules_hold(dn, labels) == rule_holds(dn[0], labels));
}

/// Whether `c` does not occur in `s`.
pub open spec fn free_of(s: Seq<char>, c: char) -> bool {
    forall|i: int| 0 <= i < s.len() ==> s[i] != c
}

/// Splitting never gives an empty list of pieces.
proof fn lemma_split_nonempty(s: Seq<char>, sep: char)
    ensures
        split_on(s, sep).len() >= 1,
    decreases s.len(),
{
    if s.len() > 0 {
        lemma_split_nonempty(s.drop_last(), sep);
    }
}

/// A text without the separator is one piece.
proof fn lemma_split_free(s: Seq<char>, sep: char)
    requires
        free_of(s, sep),
    ensures
        split_on(s, sep) == seq![s],
    decreases s.len(),
{
    if s.len() == 0 {
        assert(s =~= Seq::<char>::empty());
        assert(split_on(s, sep) =~= seq![s]);
    } else {
        let pre = s.drop_last();
        assert(free_of(pre, sep)) by {
            assert forall|i: int| 0 <= i < pre.len() implies pre[i] != sep by {
                assert(pre[i] == s[i]);
            }
        }
        lemma_split_free(pre, sep);
        assert(s.last() == s[s.len() - 1]);
        assert(pre.push(s.last()) =~= s);
        assert(split_on(s, sep) =~= seq![s]);
    }
}

/// Splitting `a`, a separator, then `b`, gives the pieces of `a` followed
/// by the pieces of `b`.
proof fn lemma_split_join(a: Seq<char>, b: Seq<char>, sep: char)
    ensures
        split_on(a + seq![sep] + b, sep) == split_on(a, sep) + split_on(b, sep),
    decreases b.len(),
{
    let whole = a + seq![sep] + b;
    if b.len() == 0 {
        assert(whole.drop_last() =~= a);
        assert(whole.last() == sep);
        assert(split_on(b, sep) =~= seq![Seq::<char>::empty()]);
        assert(split_on(whole, sep) =~= split_on(a, sep) + split_on(b, sep));
    } else {
        let pre = b.drop_last();
        lemma_split_join(a, pre, sep);
        assert(whole.drop_last() =~= a + seq![sep] + pre);
        assert(whole.last() == b.last());
        lemma_split_nonempty(pre, sep);
        let x = split_on(a, sep);
        let y = split_on(pre, sep);
        if b.last() == sep {
            assert(split_on(whole, sep) =~= x + y.push(Seq::empty()));
        } else {
            assert((x + y).last() == y.last());
            assert(split_on(whole, sep) =~= x + y.update(y.len() - 1, y.last().push(b.last())));
        }
    }
}

/// How each form of selector piece is read: `key=value` is an equality,
/// `key!=value` an inequality, `!key` an absence and `key` a presence, for
/// keys and values without `=`; a piece with two `=` is no rule.
pub proof fn lemma_rule_forms(key: Seq<char>, value: Seq<char>, rest: Seq<char>)
    requires
        free_of(key, '='),
        free_of(value, '='),
    ensures
        !(key.len() > 0 && key.last() == '!') ==> rule_of(key + seq!['='] + value) == Some(
            RuleView::Equal(key, value),
        ),
        rule_of(key + seq!['!', '='] + value) == Some(RuleView::NotEqual(key, value)),
        rule_of(seq!['!'] + key) == Some(RuleView::DoesNotExist(key)),
        !(key.len() > 0 && key[0] == '!') ==> rule_of(key) == Some(RuleView::Exists(key)),
        rule_of(key + seq!['='] + value + seq!['='] + rest) is None,
{
    lemma_split_free(key, '=');
    lemma_split_free(value, '=');
    lemma_split_join(key, value, '=');
    assert(split_on(key + seq!['='] + value, '=') =~= seq![key, value]);

    let bang = key.push('!');
    assert(free_of(bang, '=')) by {
        assert forall|i: int| 0 <= i < bang.len() implies bang[i] != '=' by {
            if i < key.len() {
                assert(bang[i] == key[i]);
            }
        }
    }
    lemma_split_free(bang, '=');
    lemma_split_join(bang, value, '=');
    assert(key + seq!['!', '='] + value =~= bang + seq!['='] + value);
    assert(split_on(key + seq!['!', '='] + value, '=') =~= seq![bang, value]);
    assert(bang.drop_last() =~= key);

    let neg = seq!['!'] + key;
    assert(free_of(neg, '=')) by {
        assert forall|i: int| 0 <= i < neg.len() implies neg[i] != '=' by {
            if i > 0 {
                assert(neg[i] == key[i - 1]);
            }
        }
    }
    lemma_split_free(neg, '=');
    assert(neg.drop_first() =~= key);

    lemma_split_nonempty(rest, '=');
    lemma_split_join(key + seq!['='] + value, rest, '=');
    assert(split_on(key + seq!['='] + value + seq!['='] + rest, '=').len() >= 3);
}

/// A selector of one piece without a comma is that piece's rule; two pieces
/// joined by a comma give both rules, in order; and a selector with a piece
/// that is no rule is refused.
pub proof fn lemma_selector_pieces(first: Seq<char>, second: Seq<char>)
    requires
        free_of(first, ','),
        free_of(second, ','),
    ensures
        rule_of(first) is Some ==> spec_parse_filter(first) == Some(seq![rule_of(first)->0]),
        rule_of(first) is Some && rule_of(second) is Some ==> spec_parse_filter(
            first + seq![','] + second,
        ) == Some(seq![rule_of(first)->0, rule_of(second)->0]),
        rule_of(first) is None ==> spec_parse_filter(first) is None && spec_parse_filter(
            first + seq![','] + second,
        ) is None,
{
    lemma_split_free(first, ',');
    lemma_split_free(second, ',');
    lemma_split_join(first, second, ',');
    let one = split_on(first, ',');
    let two = split_on(first + seq![','] + second, ',');
    assert(two =~= seq![first, second]);
    if rule_of(first) is Some {
        assert(one[0] == first);
        assert(one.map_values(|p: Seq<char>| rule_of(p)->0) =~= seq![rule_of(first)->0]);
        if rule_of(second) is Some {
            assert forall|i: int| 0 <= i < two.len() implies #[trigger] rule_of(two[i]) is Some by {}
            assert(two.map_values(|p: Seq<char>| rule_of(p)->0) =~= seq![
                rule_of(first)->0,
                rule_of(second)->0,
            ]);
        }
    } else {
        assert(rule_of(one[0]) is None);
        assert(rule_of(two[0]) is None);
    }
}

} // verus!
