//! Assembly of exactly one game from an ordered stream of parse events:
//! header key/value pairs, move tokens, and a terminal end-of-game
//! marker.  Header events with unrecognized keys are silently discarded
//! (the reduced-export-format filter); a result carried by the
//! terminator overwrites the `Result` header field.

use vstd::prelude::*;

use crate::pgn_data::{
    empty_game, moves_canonical, san_token, GameView, HeadersView, PgnData, SanPlusWrapper,
};

verus! {

/// One event of the parse-event stream for a single game.
pub enum ParseEvent {
    /// A header pair: key and value.
    Tag(String, String),
    /// One move, already validated and rendered canonically by the
    /// external move-notation capability.
    San(SanPlusWrapper),
    /// The end-of-game marker, carrying the authoritative result string
    /// when the terminator states one.
    End(Option<String>),
}

/// Mathematical model of one parse event: the same three shapes over
/// character sequences.
pub ghost enum EventView {
    Tag(Seq<char>, Seq<char>),
    San(Seq<char>),
    End(Option<Seq<char>>),
}

/// The model of one event.
pub open spec fn event_view(e: ParseEvent) -> EventView {
    match e {
        ParseEvent::Tag(k, v) => EventView::Tag(k@, v@),
        ParseEvent::San(m) => EventView::San(m@),
        ParseEvent::End(r) => EventView::End(
            match r {
                Some(s) => Some(s@),
                None => None,
            },
        ),
    }
}

/// The model of a whole event stream.
pub open spec fn events_view(evs: Seq<ParseEvent>) -> Seq<EventView> {
    evs.map_values(|e: ParseEvent| event_view(e))
}

/// Failure to read one complete game out of the source text.
#[derive(Clone, Copy, Debug, PartialEq, Eq, Structural)]
pub enum ParseError {
    /// The input holds no game at all: no moves and no terminator.
    NoGameFound,
    /// The input ends in the middle of a game: moves without a terminator.
    UnterminatedGame,
    /// A move token that the move-notation capability rejects.
    InvalidMoveToken,
    /// A header line that does not have the `[Name "value"]` shape.
    MalformedHeader,
}

/// The effect of one header event: a recognized key sets its field (a
/// later duplicate overwrites an earlier one), an unrecognized key
/// changes nothing.
pub open spec fn apply_tag(h: HeadersView, k: Seq<char>, v: Seq<char>) -> HeadersView {
    if k == "Event"@ {
        HeadersView { event: v, ..h }
    } else if k == "Site"@ {
        HeadersView { site: v, ..h }
    } else if k == "Date"@ {
        HeadersView { date: v, ..h }
    } else if k == "Round"@ {
        HeadersView { round: v, ..h }
    } else if k == "White"@ {
        HeadersView { white: v, ..h }
    } else if k == "Black"@ {
        HeadersView { black: v, ..h }
    } else if k == "Result"@ {
        HeadersView { result: v, ..h }
    } else {
        h
    }
}

/// The effect of one non-terminal event on the game under assembly.
pub open spec fn apply_event(g: GameView, e: EventView) -> GameView {
    match e {
        EventView::Tag(k, v) => GameView { headers: apply_tag(g.headers, k, v), ..g },
        EventView::San(m) => GameView { moves: g.moves.push(m), ..g },
        EventView::End(_) => g,
    }
}

/// The effect of the terminator: a stated result overwrites the
/// `Result` header field.
pub open spec fn apply_end(g: GameView, r: Option<Seq<char>>) -> GameView {
    match r {
        Some(s) => GameView { headers: HeadersView { result: s, ..g.headers }, ..g },
        None => g,
    }
}

/// Folds the events over the game under assembly, stopping at the first
/// end-of-game marker; `None` when the stream ends without one.
pub open spec fn build_rec(g: GameView, events: Seq<EventView>) -> Option<GameView>
    decreases events.len(),
{
    if events.len() == 0 {
        None
    } else {
        match events.first() {
            EventView::End(r) => Some(apply_end(g, r)),
            e => build_rec(apply_event(g, e), events.drop_first()),
        }
    }
}

/// The game that a stream of parse events assembles, starting from the
/// empty game; `None` when the stream holds no complete game.
pub open spec fn build_spec(events: Seq<EventView>) -> Option<GameView> {
    build_rec(empty_game(), events)
}

/// True of the end-of-game marker event.
pub open spec fn is_end(e: EventView) -> bool {
    e is End
}

/// True of a move event.
pub open spec fn is_san(e: EventView) -> bool {
    e is San
}

/// True when the stream carries an end-of-game marker.
pub open spec fn stream_has_end(events: Seq<EventView>) -> bool {
    exists|i: int| 0 <= i < events.len() && is_end(#[trigger] events[i])
}

/// True when the stream carries at least one move event.
pub open spec fn stream_has_san(events: Seq<EventView>) -> bool {
    exists|i: int| 0 <= i < events.len() && is_san(#[trigger] events[i])
}

/// The error a stream without a terminator produces: the stream ended
/// mid-game when moves were seen, and held no game at all otherwise.
pub open spec fn no_end_error(events: Seq<EventView>) -> ParseError {
    if stream_has_san(events) {
        ParseError::UnterminatedGame
    } else {
        ParseError::NoGameFound
    }
}

/// Consumes one stream of parse events and assembles exactly one game,
/// or fails without producing a partial game.  Success comes exactly
/// when the stream carries an end-of-game marker; events after the
/// first marker are ignored.
pub fn build_from_events(events: &Vec<ParseEvent>) -> (r: Result<PgnData, ParseError>)
    ensures
        r matches Ok(g) ==> build_spec(events_view(events@)) == Some(g@),
        r is Ok <==> build_spec(events_view(events@)) is Some,
        r is Ok <==> stream_has_end(events_view(events@)),
        r matches Err(e) ==> e == no_end_error(events_view(events@)),
{
    let ghost ev = events_view(events@);
    let mut g = PgnData::new();
    let mut saw_san = false;
    let n = events.len();
    proof {
        assert(ev.skip(0) =~= ev);
    }
    for i in 0..n
        invariant
            n == events@.len(),
            ev == events_view(events@),
            ev.len() == n,
            build_spec(ev) == build_rec(g@, ev.skip(i as int)),
            saw_san == exists|j: int| 0 <= j < i && is_san(#[trigger] ev[j]),
            forall|j: int| 0 <= j < i ==> !is_end(#[trigger] ev[j]),
    {
        let ghost g0 = g@;
        proof {
            assert(ev[i as int] == event_view(events@[i as int]));
            assert(ev.skip(i as int).first() == ev[i as int]);
            assert(ev.skip(i as int).drop_first() =~= ev.skip(i + 1));
        }
        match &events[i] {
            ParseEvent::Tag(k, v) => {
                if *k == "Event".to_owned() {
                    g.headers.event = v.clone();
                } else if *k == "Site".to_owned() {
                    g.headers.site = v.clone();
                } else if *k == "Date".to_owned() {
                    g.headers.date = v.clone();
                } else if *k == "Round".to_owned() {
                    g.headers.round = v.clone();
                } else if *k == "White".to_owned() {
                    g.headers.white = v.clone();
                } else if *k == "Black".to_owned() {
                    g.headers.black = v.clone();
                } else if *k == "Result".to_owned() {
                    g.headers.result = v.clone();
                }
                proof {
                    assert(g@ =~= apply_event(g0, ev[i as int]));
                }
            },
            ParseEvent::San(m) => {
                g.moves.push(SanPlusWrapper(m.0.clone()));
                saw_san = true;
                proof {
                    assert(g@.moves =~= g0.moves.push(ev[i as int]->San_0));
                    assert(g@ =~= apply_event(g0, ev[i as int]));
                }
            },
            ParseEvent::End(res) => {
                match res {
                    Some(s) => {
                        g.headers.result = s.clone();
                    },
                    None => {},
                }
                proof {
                    assert(g@ =~= apply_end(g0, ev[i as int]->End_0));
                    assert(build_spec(ev) == Some(g@));
                }
                return Ok(g);
            },
        }
    }
    proof {
        assert(ev.skip(n as int).len() == 0);
    }
    if saw_san {
        Err(ParseError::UnterminatedGame)
    } else {
        Err(ParseError::NoGameFound)
    }
}

/// Every move event of the stream carries a canonical token of the
/// move-notation capability.
pub open spec fn sans_canonical(events: Seq<EventView>) -> bool {
    forall|i: int|
        0 <= i < events.len() ==> ((#[trigger] events[i]) matches EventView::San(m) ==> san_token(
            m,
        ))
}

/// A game built from canonical move events, on top of a game whose
/// moves were canonical, has only canonical moves: the builder keeps
/// the §-invariant that moves come only from the capability's parse.
pub proof fn lemma_moves_canonical(g0: GameView, events: Seq<EventView>, g: GameView)
    requires
        build_rec(g0, events) == Some(g),
        moves_canonical(g0.moves),
        sans_canonical(events),
    ensures
        moves_canonical(g.moves),
    decreases events.len(),
{
    match events.first() {
        EventView::End(r) => {
        },
        e => {
            assert forall|j: int|
                0 <= j < events.drop_first().len() implies ((#[trigger] events.drop_first()[j])
                matches EventView::San(m) ==> san_token(m)) by {
                assert(events.drop_first()[j] == events[j + 1]);
            }
            let g1 = apply_event(g0, e);
            assert(moves_canonical(g1.moves)) by {
                match e {
                    EventView::San(m) => {
                        assert(events[0] matches EventView::San(mm) && mm == m);
                        assert forall|j: int| 0 <= j < g1.moves.len() implies san_token(
                            #[trigger] g1.moves[j],
                        ) by {
                            if j < g0.moves.len() {
                                assert(g0.moves[j] == g1.moves[j]);
                                assert(san_token(g0.moves[j]));
                            }
                        }
                    },
                    _ => {},
                }
            }
            lemma_moves_canonical(g1, events.drop_first(), g);
        },
    }
}

/// True when the stream carries a header event with exactly this key
/// and value.
pub open spec fn has_tag_value(events: Seq<EventView>, k: Seq<char>, v: Seq<char>) -> bool {
    exists|i: int|
        #![trigger events[i]]
        {
            &&& 0 <= i < events.len()
            &&& events[i] matches EventView::Tag(kk, vv) && kk == k && vv == v
        }
}

/// True when the stream carries a terminator stating this result.
pub open spec fn has_end_result(events: Seq<EventView>, v: Seq<char>) -> bool {
    exists|i: int|
        #![trigger events[i]]
        {
            &&& 0 <= i < events.len()
            &&& events[i] matches EventView::End(Some(s)) && s == v
        }
}

proof fn lemma_has_tag_value_cons(events: Seq<EventView>, k: Seq<char>, v: Seq<char>)
    requires
        events.len() > 0,
        has_tag_value(events.drop_first(), k, v),
    ensures
        has_tag_value(events, k, v),
{
    let i = choose|i: int|
        #![trigger events.drop_first()[i]]
        {
            &&& 0 <= i < events.drop_first().len()
            &&& events.drop_first()[i] matches EventView::Tag(kk, vv) && kk == k && vv == v
        };
    assert(events[i + 1] == events.drop_first()[i]);
}

proof fn lemma_has_end_result_cons(events: Seq<EventView>, v: Seq<char>)
    requires
        events.len() > 0,
        has_end_result(events.drop_first(), v),
    ensures
        has_end_result(events, v),
{
    let i = choose|i: int|
        #![trigger events.drop_first()[i]]
        {
            &&& 0 <= i < events.drop_first().len()
            &&& events.drop_first()[i] matches EventView::End(Some(s)) && s == v
        };
    assert(events[i + 1] == events.drop_first()[i]);
}

/// The reduced-export-format filter: every header field of a built
/// game either kept the value it started from (for a game built from
/// scratch, the empty string) or holds literally the value of a header
/// event with that field's own recognized key — or, for the result
/// field, the result stated by the terminator.  A header event with an
/// unrecognized key leaves no trace in any field.
pub proof fn lemma_header_filtering(g0: GameView, events: Seq<EventView>, g: GameView)
    requires
        build_rec(g0, events) == Some(g),
    ensures
        g.headers.event == g0.headers.event || has_tag_value(events, "Event"@, g.headers.event),
        g.headers.site == g0.headers.site || has_tag_value(events, "Site"@, g.headers.site),
        g.headers.date == g0.headers.date || has_tag_value(events, "Date"@, g.headers.date),
        g.headers.round == g0.headers.round || has_tag_value(events, "Round"@, g.headers.round),
        g.headers.white == g0.headers.white || has_tag_value(events, "White"@, g.headers.white),
        g.headers.black == g0.headers.black || has_tag_value(events, "Black"@, g.headers.black),
        g.headers.result == g0.headers.result || has_tag_value(events, "Result"@, g.headers.result)
            || has_end_result(events, g.headers.result),
    decreases events.len(),
{
    let rest = events.drop_first();
    match events.first() {
        EventView::End(r) => {
            match r {
                Some(s) => {
                    assert({
                        &&& events[0] matches EventView::End(Some(ss)) && ss == s
                    });
                },
                None => {},
            }
        },
        EventView::Tag(k, v) => {
            lemma_header_filtering(apply_event(g0, events.first()), rest, g);
            assert({
                &&& events[0] matches EventView::Tag(kk, vv) && kk == k && vv == v
            });
            if has_tag_value(rest, "Event"@, g.headers.event) {
                lemma_has_tag_value_cons(events, "Event"@, g.headers.event);
            }
            if has_tag_value(rest, "Site"@, g.headers.site) {
                lemma_has_tag_value_cons(events, "Site"@, g.headers.site);
            }
            if has_tag_value(rest, "Date"@, g.headers.date) {
                lemma_has_tag_value_cons(events, "Date"@, g.headers.date);
            }
            if has_tag_value(rest, "Round"@, g.headers.round) {
                lemma_has_tag_value_cons(events, "Round"@, g.headers.round);
            }
            if has_tag_value(rest, "White"@, g.headers.white) {
                lemma_has_tag_value_cons(events, "White"@, g.headers.white);
            }
            if has_tag_value(rest, "Black"@, g.headers.black) {
                lemma_has_tag_value_cons(events, "Black"@, g.headers.black);
            }
            if has_tag_value(rest, "Result"@, g.headers.result) {
                lemma_has_tag_value_cons(events, "Result"@, g.headers.result);
            }
            if has_end_result(rest, g.headers.result) {
                lemma_has_end_result_cons(events, g.headers.result);
            }
        },
        EventView::San(_) => {
            lemma_header_filtering(apply_event(g0, events.first()), rest, g);
            if has_tag_value(rest, "Event"@, g.headers.event) {
                lemma_has_tag_value_cons(events, "Event"@, g.headers.event);
            }
            if has_tag_value(rest, "Site"@, g.headers.site) {
                lemma_has_tag_value_cons(events, "Site"@, g.headers.site);
            }
            if has_tag_value(rest, "Date"@, g.headers.date) {
                lemma_has_tag_value_cons(events, "Date"@, g.headers.date);
            }
            if has_tag_value(rest, "Round"@, g.headers.round) {
                lemma_has_tag_value_cons(events, "Round"@, g.headers.round);
            }
            if has_tag_value(rest, "White"@, g.headers.white) {
                lemma_has_tag_value_cons(events, "White"@, g.headers.white);
            }
            if has_tag_value(rest, "Black"@, g.headers.black) {
                lemma_has_tag_value_cons(events, "Black"@, g.headers.black);
            }
            if has_tag_value(rest, "Result"@, g.headers.result) {
                lemma_has_tag_value_cons(events, "Result"@, g.headers.result);
            }
            if has_end_result(rest, g.headers.result) {
                lemma_has_end_result_cons(events, g.headers.result);
            }
        },
    }
}

} // verus!
