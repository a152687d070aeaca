//! The trusted boundary to the SGF parser: parse the record text, and move
//! each parsed node's properties into the library's own event trees.
//! Everything after this boundary is verified.

use vstd::prelude::*;

use sgf_parse::go::{Move, Prop};
use sgf_parse::SgfNode;

use crate::events::{flatten_forest, PropertyEvent, SgfTree};
use crate::game_parse::{
    interpret, interpret_post, lemma_run_events_never_unparseable, GameData, GameError,
};
use crate::grid::Stone;

verus! {

#[verifier::external_type_specification]
#[verifier::external_body]
pub struct ExGoProp(Prop);

/// A forest of parsed SGF nodes, held opaquely: the parser's node type
/// carries a trait-bounded generic that cannot be declared here, so the
/// nodes sit behind this struct and are read through the wrappers below.
#[verifier::external_body]
struct ParsedForest {
    nodes: Vec<SgfNode<Prop>>,
}

/// The total number of nodes inside a parsed forest, counted through all
/// descendants; named only so that walking into a node's children has a
/// decreasing measure.
pub uninterp spec fn forest_weight(f: ParsedForest) -> nat;

/// Whether the parser accepts the text as an SGF record of a Go game. The
/// parse's verdict depends on the characters alone, so it has a name; what
/// the parsed trees hold stays behind the wrappers below.
pub uninterp spec fn sgf_parseable(text: Seq<char>) -> bool;

/// Relies on sgf_parse::go::parse: the record text parsed into a forest of
/// game trees, or nothing when the text is not parseable SGF. Whether the
/// parse succeeds is decided by the text alone.
#[verifier::external_body]
fn parse_sgf(text: &str) -> (r: Option<ParsedForest>)
    ensures
        r is Some <==> sgf_parseable(text@),
{
    Some(ParsedForest { nodes: sgf_parse::go::parse(text).ok()? })
}

/// Relies on Vec::len: how many root nodes the forest has.
#[verifier::external_body]
fn forest_len(f: &ParsedForest) -> (n: usize) {
    f.nodes.len()
}

/// Relies on the sgf_parse::go::Prop variants: each property moved into the
/// event the projector consumes; every other property becomes `Other`.
#[verifier::external_body]
fn event_of_prop(p: &Prop) -> (ev: PropertyEvent) {
    match p {
        Prop::W(Move::Move(pt)) => PropertyEvent::WhiteMove(pt.x, pt.y),
        Prop::B(Move::Move(pt)) => PropertyEvent::BlackMove(pt.x, pt.y),
        Prop::AW(pts) => PropertyEvent::AddWhite(
            pts.iter().map(|q| Stone { x: q.x, y: q.y }).collect(),
        ),
        Prop::AB(pts) => PropertyEvent::AddBlack(
            pts.iter().map(|q| Stone { x: q.x, y: q.y }).collect(),
        ),
        Prop::SZ(sz) => PropertyEvent::Size(sz.0),
        _ => PropertyEvent::Other,
    }
}

/// Relies on sgf_parse::SgfNode's `properties` field: the properties of root
/// node `i`, in their original order, as events.
#[verifier::external_body]
fn node_events(f: &ParsedForest, i: usize) -> (r: Option<Vec<PropertyEvent>>) {
    Some(f.nodes.get(i)?.properties.iter().map(event_of_prop).collect())
}

/// Relies on sgf_parse::SgfNode's `children` field: the child nodes of root
/// node `i`, in order, as a forest of their own. The children are a strict
/// part of the forest, so their node count is smaller than the forest's.
#[verifier::external_body]
fn node_children(f: &ParsedForest, i: usize) -> (r: Option<ParsedForest>)
    ensures
        r matches Some(g) ==> forest_weight(g) < forest_weight(*f),
{
    Some(ParsedForest { nodes: f.nodes.get(i)?.children.clone() })
}

/// Rebuild a parsed forest as the library's own trees, node for node.
fn trees_of_forest(f: &ParsedForest) -> (out: Vec<SgfTree>)
    decreases forest_weight(*f),
{
    let n = forest_len(f);
    let mut out: Vec<SgfTree> = Vec::new();
    let mut i: usize = 0;
    while i < n
        decreases n - i,
    {
        let events = match node_events(f, i) {
            Some(e) => e,
            None => Vec::new(),
        };
        let children = match node_children(f, i) {
            Some(g) => trees_of_forest(&g),
            None => Vec::new(),
        };
        out.push(SgfTree { events, children });
        i += 1;
    }
    out
}

/// Parse a record and flatten it to its event sequence, document order; the
/// text is rejected exactly when the parser rejects it.
fn sgf_events(raw_sgf: &str) -> (r: Option<Vec<PropertyEvent>>)
    ensures
        r is Some <==> sgf_parseable(raw_sgf@),
{
    match parse_sgf(raw_sgf) {
        None => None,
        Some(forest) => Some(flatten_forest(trees_of_forest(&forest))),
    }
}

/// Interpret one SGF record: parse the text, flatten the parsed trees into a
/// property-event sequence, replay it onto the board with dead-stone
/// analysis after every move, and normalize the survivors.
///
/// Text the parser rejects is rejected here, and nothing else is: the
/// unparseable-text error comes back exactly when the text is not SGF. For
/// parseable text, the result satisfies `interpret_post` for the event
/// sequence the parse yielded: what that sequence holds is the one thing
/// taken on trust.
pub fn get_game_data(raw_sgf: &str) -> (r: Result<GameData, GameError>)
    ensures
        r == Err::<GameData, GameError>(GameError::Unparseable) <==> !sgf_parseable(raw_sgf@),
        match r {
            Ok(gd) => exists|evs: Seq<PropertyEvent>| #[trigger] interpret_post(evs, Ok(gd)),
            Err(e) => e == GameError::Unparseable || exists|evs: Seq<PropertyEvent>|
                #[trigger] interpret_post(evs, Err(e)),
        },
{
    match sgf_events(raw_sgf) {
        None => Err(GameError::Unparseable),
        Some(events) => {
            let r = interpret(&events);
            proof {
                assert(interpret_post(events@, r));
                lemma_run_events_never_unparseable(events@);
                assert(r != Err::<GameData, GameError>(GameError::Unparseable));
            }
            r
        },
    }
}

} // verus!
