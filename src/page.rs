use vstd::prelude::*;

use crate::error::BracketError;
use crate::simulate::{node_id_parts, parse_percent, percent_of};
use crate::simulate::extract_team_round_from_id;
use crate::text::push_str;
use crate::tournament::{names_view, observed, str_eq, str_to_string, ObservedState, RoundKind};

verus! {

/// The ids, in document order, of the elements of an HTML fragment that a CSS
/// selector matches; an element without an id gives an empty string.
pub uninterp spec fn selected_ids(html: Seq<char>, selector: Seq<char>) -> Seq<Seq<char>>;

/// Relies on `scraper::Html::parse_fragment`, `scraper::Selector::parse` and
/// `Html::select`: the id of each matched element, in document order; `None`
/// when the selector does not parse. `g.node`, a type and a class, parses.
#[verifier::external_body]
fn element_ids(html: &str, selector: &str) -> (r: Option<Vec<String>>)
    ensures
        r matches Some(v) ==> names_view(v@) == selected_ids(html@, selector@),
        selector@ == "g.node"@ ==> r is Some,
{
    let parsed = scraper::Html::parse_fragment(html);
    let sel = scraper::Selector::parse(selector).ok()?;
    Some(parsed.select(&sel).map(|n| n.value().id().unwrap_or_default().to_string()).collect())
}

/// `team` stands in round `k + 1` according to some node id of `ids`.
pub open spec fn seen_in_ids(ids: Seq<Seq<char>>, k: int, team: Seq<char>) -> bool {
    exists|j: int| 0 <= j < ids.len() && node_id_parts(#[trigger] ids[j]) == Some((team, k + 1))
}

proof fn lemma_seen_push(prev: Seq<Seq<char>>, x: Seq<char>, k: int, t: Seq<char>)
    ensures
        seen_in_ids(prev.push(x), k, t) == (seen_in_ids(prev, k, t) || node_id_parts(x) == Some(
            (t, k + 1),
        )),
{
    let next = prev.push(x);
    if seen_in_ids(prev, k, t) {
        let j = choose|j: int| 0 <= j < prev.len() && node_id_parts(#[trigger] prev[j]) == Some((t, k + 1));
        assert(next[j] == prev[j]);
    }
    if node_id_parts(x) == Some((t, k + 1)) {
        assert(next[prev.len() as int] == x);
    }
    if seen_in_ids(next, k, t) {
        let j = choose|j: int| 0 <= j < next.len() && node_id_parts(#[trigger] next[j]) == Some((t, k + 1));
        if j < prev.len() {
            assert(prev[j] == next[j]);
        }
    }
}

proof fn lemma_contains_push(s: Seq<Seq<char>>, x: Seq<char>, t: Seq<char>)
    ensures
        s.push(x).contains(t) == (s.contains(t) || t == x),
{
    if s.contains(t) {
        let j = choose|j: int| 0 <= j < s.len() && s[j] == t;
        assert(s.push(x)[j] == t);
    }
    if t == x {
        assert(s.push(x)[s.len() as int] == t);
    }
    if s.push(x).contains(t) {
        let j = choose|j: int| 0 <= j < s.push(x).len() && s.push(x)[j] == t;
        if j < s.len() {
            assert(s[j] == t);
        }
    }
}

/// The observed state that a list of bracket node ids describes: each id that
/// names a team and a round puts the team in that round; other ids are
/// passed over.
pub fn observed_from_ids(ids: &Vec<String>) -> (r: ObservedState)
    ensures
        forall|k: int, t: Seq<char>| observed(r@, k, t) <==> seen_in_ids(names_view(ids@), k, t),
{
    let mut rounds: Vec<Vec<String>> = Vec::new();
    let mut k: usize = 0;
    while k < 6
        invariant
            k <= 6,
            rounds.len() == k,
            forall|j: int| 0 <= j < k ==> (#[trigger] rounds@[j]).len() == 0,
        decreases 6 - k,
    {
        rounds.push(Vec::new());
        k = k + 1;
    }
    let mut i: usize = 0;
    while i < ids.len()
        invariant
            i <= ids@.len(),
            rounds.len() == 6,
            forall|k: int, t: Seq<char>|
                0 <= k < 6 ==> (names_view(rounds@[k]@).contains(t) <==> seen_in_ids(
                    names_view(ids@).take(i as int),
                    k,
                    t,
                )),
        decreases ids.len() - i,
    {
        let ghost before = rounds@;
        let ghost prev = names_view(ids@).take(i as int);
        let ghost x = ids@[i as int]@;
        proof {
            assert(names_view(ids@).take(i + 1) =~= prev.push(x));
            assert forall|k: int, t: Seq<char>|
                seen_in_ids(prev.push(x), k, t) == (seen_in_ids(prev, k, t) || node_id_parts(x)
                    == Some((t, k + 1))) by {
                lemma_seen_push(prev, x, k, t);
            }
        }
        match extract_team_round_from_id(ids[i].as_str()) {
            Ok((team, RoundKind::Round(n))) => {
                proof {
                    assert(node_id_parts(x) == Some((team@, n as int)));
                }
                let kk = n - 1;
                rounds[kk].push(team);
                proof {
                    assert forall|k: int, t: Seq<char>| 0 <= k < 6 implies (names_view(rounds@[k]@).contains(t)
                        <==> seen_in_ids(prev.push(x), k, t)) by {
                        lemma_seen_push(prev, x, k, t);
                        assert(names_view(before[k]@).contains(t) == seen_in_ids(prev, k, t));
                        if k == kk {
                            assert(names_view(rounds@[k]@) =~= names_view(before[k]@).push(team@));
                            lemma_contains_push(names_view(before[k]@), team@, t);
                        } else {
                            assert(rounds@[k] == before[k]);
                        }
                    }
                }
            },
            _ => {
                proof {
                    assert(node_id_parts(x) is None);
                    assert forall|k: int, t: Seq<char>| 0 <= k < 6 implies (names_view(rounds@[k]@).contains(t)
                        <==> seen_in_ids(prev.push(x), k, t)) by {
                        lemma_seen_push(prev, x, k, t);
                    }
                }
            },
        }
        i = i + 1;
    }
    let r = ObservedState { rounds };
    proof {
        assert(names_view(ids@).take(ids@.len() as int) =~= names_view(ids@));
        assert forall|k: int, t: Seq<char>| observed(r@, k, t) <==> seen_in_ids(names_view(ids@), k, t) by {
            if seen_in_ids(names_view(ids@), k, t) {
                let j = choose|j: int| 0 <= j < names_view(ids@).len() && node_id_parts(#[trigger] names_view(ids@)[j]) == Some((t, k + 1));
                assert(0 <= k < 6);
            }
        }
    }
    r
}

/// The observed state of a bracket page: the ids of its `g.node` elements,
/// read as `observed_from_ids` reads them.
pub fn observed_from_html(html: &str) -> (r: ObservedState)
    ensures
        forall|k: int, t: Seq<char>|
            observed(r@, k, t) <==> seen_in_ids(selected_ids(html@, "g.node"@), k, t),
{
    match element_ids(html, "g.node") {
        Some(ids) => observed_from_ids(&ids),
        None => {
            // `g.node` always parses.
            proof {
                assert(false);
            }
            ObservedState::new()
        },
    }
}


/// An element of a bracket page that may carry a win probability: its CSS
/// classes and the pieces of text inside it.
pub struct TextNode {
    pub classes: Vec<String>,
    pub texts: Vec<String>,
}

pub struct TextNodeView {
    pub classes: Seq<Seq<char>>,
    pub texts: Seq<Seq<char>>,
}

impl View for TextNode {
    type V = TextNodeView;

    open spec fn view(&self) -> TextNodeView {
        TextNodeView { classes: names_view(self.classes@), texts: names_view(self.texts@) }
    }
}

/// The elements of an HTML fragment that a CSS selector matches, in document
/// order, each as the set of its classes and the sequence of its text pieces.
pub uninterp spec fn labelled_nodes(html: Seq<char>, selector: Seq<char>) -> Seq<
    (Set<Seq<char>>, Seq<Seq<char>>),
>;

/// Relies on `scraper::Html::parse_fragment`, `scraper::Selector::parse`,
/// `Html::select`, `Element::classes` and `ElementRef::text`: each matched
/// element with its classes and its text pieces; `None` when the selector
/// does not parse. The classes come out of a hash set in no fixed order, so
/// only their set is stated. A depth selector parses: the CSS parser closes
/// the open attribute bracket at the end of input.
#[verifier::external_body]
fn text_nodes(html: &str, selector: &str) -> (r: Option<Vec<TextNode>>)
    ensures
        r matches Some(v) ==> v@.len() == labelled_nodes(html@, selector@).len(),
        r matches Some(v) ==> forall|i: int|
            0 <= i < v@.len() ==> (#[trigger] v@[i])@.classes.to_set() == labelled_nodes(
                html@,
                selector@,
            )[i].0 && v@[i]@.texts == labelled_nodes(html@, selector@)[i].1,
        (exists|d: int| 0 <= d <= 5 && selector@ == depth_selector(d)) ==> r is Some,
{
    let parsed = scraper::Html::parse_fragment(html);
    let sel = scraper::Selector::parse(selector).ok()?;
    Some(parsed.select(&sel).map(|n| TextNode {
        classes: n.value().classes().map(|c| c.to_string()).collect(),
        texts: n.text().map(|t| t.to_string()).collect(),
    }).collect())
}

/// A node labels `team`'s win probability when it carries the team's class
/// and exactly one piece of text.
pub open spec fn labels(n: TextNodeView, team: Seq<char>) -> bool {
    n.classes.contains(team) && n.texts.len() == 1
}

/// Index of the first labelled node, from `i` on, that carries the class
/// `team` and exactly one piece of text.
pub open spec fn first_labelled(
    nodes: Seq<(Set<Seq<char>>, Seq<Seq<char>>)>,
    team: Seq<char>,
    i: int,
) -> Option<int>
    decreases nodes.len() - i,
{
    if i < 0 || i >= nodes.len() {
        None
    } else if nodes[i].0.contains(team) && nodes[i].1.len() == 1 {
        Some(i)
    } else {
        first_labelled(nodes, team, i + 1)
    }
}

/// The win percentage of `team` that a page's labelled nodes give.
pub open spec fn percent_in(nodes: Seq<(Set<Seq<char>>, Seq<Seq<char>>)>, team: Seq<char>) -> Option<
    Option<int>,
> {
    match first_labelled(nodes, team, 0) {
        None => None,
        Some(j) => Some(percent_of(nodes[j].1[0])),
    }
}

proof fn lemma_first_labelled(
    views: Seq<TextNodeView>,
    nodes: Seq<(Set<Seq<char>>, Seq<Seq<char>>)>,
    team: Seq<char>,
    i: int,
)
    requires
        0 <= i,
        views.len() == nodes.len(),
        forall|x: int|
            0 <= x < views.len() ==> (#[trigger] views[x]).classes.to_set() == nodes[x].0
                && views[x].texts == nodes[x].1,
    ensures
        first_label(views, team, i) == first_labelled(nodes, team, i),
    decreases views.len() - i,
{
    if i < views.len() {
        assert(views[i].classes.to_set().contains(team) == views[i].classes.contains(team));
        lemma_first_labelled(views, nodes, team, i + 1);
    }
}

/// Index of the first node, from `i` on, that labels `team`.
pub open spec fn first_label(nodes: Seq<TextNodeView>, team: Seq<char>, i: int) -> Option<int>
    decreases nodes.len() - i,
{
    if i < 0 || i >= nodes.len() {
        None
    } else if labels(nodes[i], team) {
        Some(i)
    } else {
        first_label(nodes, team, i + 1)
    }
}

fn contains_name(names: &Vec<String>, team: &str) -> (r: bool)
    ensures
        r == names_view(names@).contains(team@),
{
    let mut i: usize = 0;
    while i < names.len()
        invariant
            i <= names@.len(),
            forall|j: int| 0 <= j < i ==> names@[j]@ != team@,
        decreases names.len() - i,
    {
        if str_eq(names[i].as_str(), team) {
            assert(names_view(names@)[i as int] == team@);
            return true;
        }
        i = i + 1;
    }
    assert forall|j: int| 0 <= j < names_view(names@).len() implies names_view(names@)[j] != team@ by {
        assert(names@[j]@ != team@);
    }
    false
}

/// The win percentage of `team` in round `round`, read from the first node
/// that labels it.
pub fn win_percent_from_nodes(nodes: &Vec<TextNode>, team: &str, round: usize) -> (r: Result<u32, BracketError>)
    ensures
        match first_label(nodes@.map_values(|n: TextNode| n@), team@, 0) {
            None => r matches Err(BracketError::LookupNotFound { .. }),
            Some(j) => match percent_of(nodes@[j]@.texts[0]) {
                Some(p) => r == Ok::<u32, BracketError>(p as u32),
                None => r == Err::<u32, BracketError>(BracketError::BadPercent),
            },
        },
{
    let ghost views = nodes@.map_values(|n: TextNode| n@);
    let mut i: usize = 0;
    while i < nodes.len()
        invariant
            i <= nodes@.len(),
            views == nodes@.map_values(|n: TextNode| n@),
            first_label(views, team@, 0) == first_label(views, team@, i as int),
        decreases nodes.len() - i,
    {
        let n = &nodes[i];
        assert(views[i as int] == n@);
        if n.texts.len() == 1 && contains_name(&n.classes, team) {
            return parse_percent(n.texts[0].as_str());
        }
        i = i + 1;
    }
    Err(BracketError::LookupNotFound { team: str_to_string(team), round: RoundKind::Round(round) })
}

fn push_depth_selector(out: &mut String, depth: usize)
    requires
        depth <= 5,
    ensures
        final(out)@ == old(out)@ + depth_selector(depth as int),
{
    push_str(out, "text[depth=\"");
    if depth == 0 {
        push_str(out, "0");
    } else if depth == 1 {
        push_str(out, "1");
    } else if depth == 2 {
        push_str(out, "2");
    } else if depth == 3 {
        push_str(out, "3");
    } else if depth == 4 {
        push_str(out, "4");
    } else {
        push_str(out, "5");
    }
    push_str(out, "\"");
    assert(out@ =~= old(out)@ + depth_selector(depth as int));
}

/// Selector of the text nodes at a depth of the bracket tree, written as the
/// page is queried: without a closing bracket, which the CSS parser supplies.
pub open spec fn depth_selector(depth: int) -> Seq<char> {
    "text[depth=\""@ + (if depth == 0 {
        "0"@
    } else if depth == 1 {
        "1"@
    } else if depth == 2 {
        "2"@
    } else if depth == 3 {
        "3"@
    } else if depth == 4 {
        "4"@
    } else {
        "5"@
    }) + "\""@
}

/// The win percentage of `team` in round `round` (1..=6) read from a
/// bracket page whose nodes hold the probabilities; a label is read as
/// `parse_percent` reads it.
pub fn win_percent_from_html(html: &str, team: &str, round: usize) -> (r: Result<u32, BracketError>)
    requires
        1 <= round <= 6,
    ensures
        match percent_in(labelled_nodes(html@, depth_selector(6 - round)), team@) {
            None => r matches Err(BracketError::LookupNotFound { .. }),
            Some(Some(p)) => r == Ok::<u32, BracketError>(p as u32),
            Some(None) => r == Err::<u32, BracketError>(BracketError::BadPercent),
        },
        r matches Ok(p) ==> p <= 100,
{
    let mut selector = String::new();
    push_depth_selector(&mut selector, 6 - round);
    proof {
        assert(selector@ == depth_selector(6 - round));
    }
    match text_nodes(html, selector.as_str()) {
        Some(nodes) => {
            let r = win_percent_from_nodes(&nodes, team, round);
            proof {
                let views = nodes@.map_values(|n: TextNode| n@);
                let named = labelled_nodes(html@, depth_selector(6 - round));
                assert forall|x: int| 0 <= x < views.len() implies (#[trigger] views[x]).classes.to_set()
                    == named[x].0 && views[x].texts == named[x].1 by {
                    assert(views[x] == nodes@[x]@);
                }
                lemma_first_labelled(views, named, team@, 0);
                match first_label(views, team@, 0) {
                    Some(j) => {
                        lemma_first_label(views, team@, 0);
                        crate::simulate::lemma_percent_range(nodes@[j]@.texts[0]);
                    },
                    None => {},
                }
            }
            r
        },
        None => {
            // Every depth selector parses.
            proof {
                assert(false);
            }
            Err(BracketError::BadPage)
        },
    }
}

proof fn lemma_first_label(nodes: Seq<TextNodeView>, team: Seq<char>, i: int)
    requires
        0 <= i,
    ensures
        first_label(nodes, team, i) matches Some(j) ==> i <= j < nodes.len() && labels(nodes[j], team),
    decreases nodes.len() - i,
{
    if i < nodes.len() && !labels(nodes[i], team) {
        lemma_first_label(nodes, team, i + 1);
    }
}

} // verus!
