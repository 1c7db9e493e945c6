//! The tokenizer: walks one PGN game text and emits the parse-event
//! stream that the builder consumes.  Header lines become header
//! events; comments, variations, numeric annotation glyphs and move
//! numbers are discarded; move tokens go through the external
//! move-notation capability; a result token ends the game.  The whole
//! character-level walk is mirrored by the spec functions below, and
//! the executable tokenizer is proved to compute exactly them.

use vstd::prelude::*;

use crate::builder::{
    build_from_events, build_spec, lemma_moves_canonical, no_end_error, sans_canonical, EventView,
    ParseError, ParseEvent,
};
use crate::pgn_data::{empty_game, moves_canonical, san_canon_of, GameView, PgnData, SanPlusWrapper};

verus! {

/// The four whitespace characters that separate PGN tokens.
pub open spec fn is_ws_char(c: char) -> bool {
    c == ' ' || c == '\t' || c == '\r' || c == '\n'
}

/// An ASCII decimal digit.
pub open spec fn is_digit_char(c: char) -> bool {
    48 <= c as u32 <= 57
}

/// The end of the header-name run that starts at `i`.
pub open spec fn scan_name(cs: Seq<char>, i: int) -> int
    decreases cs.len() - i,
{
    if 0 <= i < cs.len() && cs[i] != ' ' && cs[i] != '"' && cs[i] != ']' {
        scan_name(cs, i + 1)
    } else {
        i
    }
}

/// The end of the space run that starts at `i`.
pub open spec fn scan_spaces(cs: Seq<char>, i: int) -> int
    decreases cs.len() - i,
{
    if 0 <= i < cs.len() && cs[i] == ' ' {
        scan_spaces(cs, i + 1)
    } else {
        i
    }
}

/// The position of the closing quote at or after `i`.
pub open spec fn scan_value(cs: Seq<char>, i: int) -> int
    decreases cs.len() - i,
{
    if 0 <= i < cs.len() && cs[i] != '"' {
        scan_value(cs, i + 1)
    } else {
        i
    }
}

/// The position of the closing brace at or after `i`.
pub open spec fn scan_comment(cs: Seq<char>, i: int) -> int
    decreases cs.len() - i,
{
    if 0 <= i < cs.len() && cs[i] != '}' {
        scan_comment(cs, i + 1)
    } else {
        i
    }
}

/// The position of the line break at or after `i`.
pub open spec fn scan_line(cs: Seq<char>, i: int) -> int
    decreases cs.len() - i,
{
    if 0 <= i < cs.len() && cs[i] != '\n' {
        scan_line(cs, i + 1)
    } else {
        i
    }
}

/// The end of the whitespace-free token run that starts at `i`.
pub open spec fn scan_word(cs: Seq<char>, i: int) -> int
    decreases cs.len() - i,
{
    if 0 <= i < cs.len() && !is_ws_char(cs[i]) {
        scan_word(cs, i + 1)
    } else {
        i
    }
}

/// The end of the digit run in `[i, end)`.
pub open spec fn scan_digits(cs: Seq<char>, i: int, end: int) -> int
    decreases end - i,
{
    if 0 <= i < end && end <= cs.len() && is_digit_char(cs[i]) {
        scan_digits(cs, i + 1, end)
    } else {
        i
    }
}

/// The end of the dot run in `[i, end)`.
pub open spec fn scan_dots(cs: Seq<char>, i: int, end: int) -> int
    decreases end - i,
{
    if 0 <= i < end && end <= cs.len() && cs[i] == '.' {
        scan_dots(cs, i + 1, end)
    } else {
        i
    }
}

/// The start of the run of `!`/`?` annotation characters that ends a
/// token at `e`: everything from the result on is annotation and is
/// discarded.
pub open spec fn trim_annot(cs: Seq<char>, a: int, e: int) -> int
    decreases e - a,
{
    if 0 <= a < e && e <= cs.len() && (cs[e - 1] == '!' || cs[e - 1] == '?') {
        trim_annot(cs, a, e - 1)
    } else {
        e
    }
}

/// Where a variation subtree opened with nesting depth `depth` at `i`
/// ends: the position just past its closing parenthesis, together with
/// the depth left open there (positive when the text ran out first).
pub open spec fn scan_paren(cs: Seq<char>, i: int, depth: int) -> (int, int)
    decreases cs.len() - i,
{
    if depth <= 0 || !(0 <= i < cs.len()) {
        (i, depth)
    } else if cs[i] == '(' {
        scan_paren(cs, i + 1, depth + 1)
    } else if cs[i] == ')' {
        scan_paren(cs, i + 1, depth - 1)
    } else {
        scan_paren(cs, i + 1, depth)
    }
}

proof fn lemma_scan_name_bounds(cs: Seq<char>, i: int)
    requires
        0 <= i <= cs.len(),
    ensures
        i <= scan_name(cs, i) <= cs.len(),
    decreases cs.len() - i,
{
    if 0 <= i < cs.len() && cs[i] != ' ' && cs[i] != '"' && cs[i] != ']' {
        lemma_scan_name_bounds(cs, i + 1);
    }
}

proof fn lemma_scan_spaces_bounds(cs: Seq<char>, i: int)
    requires
        0 <= i <= cs.len(),
    ensures
        i <= scan_spaces(cs, i) <= cs.len(),
    decreases cs.len() - i,
{
    if 0 <= i < cs.len() && cs[i] == ' ' {
        lemma_scan_spaces_bounds(cs, i + 1);
    }
}

proof fn lemma_scan_value_bounds(cs: Seq<char>, i: int)
    requires
        0 <= i <= cs.len(),
    ensures
        i <= scan_value(cs, i) <= cs.len(),
    decreases cs.len() - i,
{
    if 0 <= i < cs.len() && cs[i] != '"' {
        lemma_scan_value_bounds(cs, i + 1);
    }
}

proof fn lemma_scan_comment_bounds(cs: Seq<char>, i: int)
    requires
        0 <= i <= cs.len(),
    ensures
        i <= scan_comment(cs, i) <= cs.len(),
    decreases cs.len() - i,
{
    if 0 <= i < cs.len() && cs[i] != '}' {
        lemma_scan_comment_bounds(cs, i + 1);
    }
}

proof fn lemma_scan_line_bounds(cs: Seq<char>, i: int)
    requires
        0 <= i <= cs.len(),
    ensures
        i <= scan_line(cs, i) <= cs.len(),
    decreases cs.len() - i,
{
    if 0 <= i < cs.len() && cs[i] != '\n' {
        lemma_scan_line_bounds(cs, i + 1);
    }
}

proof fn lemma_scan_word_bounds(cs: Seq<char>, i: int)
    requires
        0 <= i <= cs.len(),
    ensures
        i <= scan_word(cs, i) <= cs.len(),
    decreases cs.len() - i,
{
    if 0 <= i < cs.len() && !is_ws_char(cs[i]) {
        lemma_scan_word_bounds(cs, i + 1);
    }
}

proof fn lemma_scan_paren_bounds(cs: Seq<char>, i: int, depth: int)
    requires
        0 <= i <= cs.len(),
    ensures
        i <= scan_paren(cs, i, depth).0 <= cs.len(),
    decreases cs.len() - i,
{
    if depth <= 0 || !(0 <= i < cs.len()) {
    } else if cs[i] == '(' {
        lemma_scan_paren_bounds(cs, i + 1, depth + 1);
    } else if cs[i] == ')' {
        lemma_scan_paren_bounds(cs, i + 1, depth - 1);
    } else {
        lemma_scan_paren_bounds(cs, i + 1, depth);
    }
}

/// What the tokenizer does from position `i` on, having already
/// emitted `acc`: one recursive step per token of the text.  The walk
/// mirrors `tokenize` exactly; `san_canon_of` names what the external
/// move-notation capability makes of a move token.
pub open spec fn tok_rec(cs: Seq<char>, i: int, acc: Seq<EventView>) -> Result<
    Seq<EventView>,
    ParseError,
>
    decreases cs.len() - i,
    via tok_rec_dec
{
    if !(0 <= i < cs.len()) {
        Result::Ok(acc)
    } else {
        let c = cs[i];
        if is_ws_char(c) {
            tok_rec(cs, i + 1, acc)
        } else if c == '[' {
            let p1 = scan_name(cs, i + 1);
            let p2 = scan_spaces(cs, p1);
            if !(p2 < cs.len() && cs[p2] == '"') {
                Result::Err(ParseError::MalformedHeader)
            } else {
                let p3 = scan_value(cs, p2 + 1);
                if p3 >= cs.len() {
                    Result::Err(ParseError::MalformedHeader)
                } else {
                    let p4 = scan_spaces(cs, p3 + 1);
                    if !(p4 < cs.len() && cs[p4] == ']') {
                        Result::Err(ParseError::MalformedHeader)
                    } else {
                        tok_rec(
                            cs,
                            p4 + 1,
                            acc.push(
                                EventView::Tag(
                                    cs.subrange(i + 1, p1),
                                    cs.subrange(p2 + 1, p3),
                                ),
                            ),
                        )
                    }
                }
            }
        } else if c == '{' {
            let p = scan_comment(cs, i + 1);
            if p >= cs.len() {
                Result::Err(ParseError::UnterminatedGame)
            } else {
                tok_rec(cs, p + 1, acc)
            }
        } else if c == '(' {
            let pd = scan_paren(cs, i + 1, 1);
            if pd.1 > 0 {
                Result::Err(ParseError::UnterminatedGame)
            } else {
                tok_rec(cs, pd.0, acc)
            }
        } else if c == ';' {
            tok_rec(cs, scan_line(cs, i + 1), acc)
        } else {
            let end = scan_word(cs, i + 1);
            let w = cs.subrange(i, end);
            if w == "1-0"@ || w == "0-1"@ || w == "1/2-1/2"@ {
                Result::Ok(acc.push(EventView::End(Some(w))))
            } else if w == "*"@ {
                Result::Ok(acc.push(EventView::End(None)))
            } else if c == '$' {
                tok_rec(cs, end, acc)
            } else if is_digit_char(c) {
                let j = scan_dots(cs, scan_digits(cs, i, end), end);
                if j == end {
                    tok_rec(cs, end, acc)
                } else {
                    // a move token glued to its move number, as in `1.e4`
                    match san_canon_of(cs.subrange(j, trim_annot(cs, j, end))) {
                        Some(m) => tok_rec(cs, end, acc.push(EventView::San(m))),
                        None => Result::Err(ParseError::InvalidMoveToken),
                    }
                }
            } else {
                match san_canon_of(cs.subrange(i, trim_annot(cs, i, end))) {
                    Some(m) => tok_rec(cs, end, acc.push(EventView::San(m))),
                    None => Result::Err(ParseError::InvalidMoveToken),
                }
            }
        }
    }
}

#[via_fn]
proof fn tok_rec_dec(cs: Seq<char>, i: int, acc: Seq<EventView>) {
    if 0 <= i < cs.len() {
        lemma_scan_name_bounds(cs, i + 1);
        let p1 = scan_name(cs, i + 1);
        lemma_scan_spaces_bounds(cs, p1);
        let p2 = scan_spaces(cs, p1);
        if p2 < cs.len() {
            lemma_scan_value_bounds(cs, p2 + 1);
            let p3 = scan_value(cs, p2 + 1);
            if p3 < cs.len() {
                lemma_scan_spaces_bounds(cs, p3 + 1);
            }
        }
        lemma_scan_comment_bounds(cs, i + 1);
        lemma_scan_paren_bounds(cs, i + 1, 1);
        lemma_scan_line_bounds(cs, i + 1);
        lemma_scan_word_bounds(cs, i + 1);
    }
}

/// The event stream that one game text tokenizes to, or the error the
/// walk stops on.
pub open spec fn tokenize_spec(s: Seq<char>) -> Result<Seq<EventView>, ParseError> {
    tok_rec(s, 0, Seq::<EventView>::empty())
}

/// What building a game from one text yields: the error of the
/// tokenizer walk or of the builder, or the game the builder assembles
/// from exactly the tokenized events.
pub open spec fn parse_outcome(s: Seq<char>) -> Result<GameView, ParseError> {
    match tokenize_spec(s) {
        Result::Err(e) => Result::Err(e),
        Result::Ok(evs) => match build_spec(evs) {
            Some(g) => Result::Ok(g),
            None => Result::Err(no_end_error(evs)),
        },
    }
}

/// Relies on `String`'s `FromIterator<char>` impl: collecting
/// characters yields the string of exactly those characters.
#[verifier::external_body]
fn chars_to_string(v: &Vec<char>) -> (r: String)
    ensures
        r@ == v@,
{
    v.iter().collect()
}

/// Copies the characters of a string into a vector.
fn str_to_chars(s: &str) -> (r: Vec<char>)
    ensures
        r@ == s@,
{
    let n = s.unicode_len();
    let mut out: Vec<char> = Vec::new();
    for i in 0..n
        invariant
            n == s@.len(),
            out@ == s@.take(i as int),
    {
        out.push(s.get_char(i));
        proof {
            assert(out@ =~= s@.take(i + 1));
        }
    }
    proof {
        assert(s@.take(n as int) =~= s@);
    }
    out
}

/// The string made of `cs[start..end]`.
fn chars_range_to_string(cs: &Vec<char>, start: usize, end: usize) -> (r: String)
    requires
        start <= end <= cs@.len(),
    ensures
        r@ == cs@.subrange(start as int, end as int),
{
    let mut part: Vec<char> = Vec::new();
    for j in start..end
        invariant
            start <= j <= end <= cs@.len(),
            part@ == cs@.subrange(start as int, j as int),
    {
        part.push(cs[j]);
        proof {
            assert(part@ =~= cs@.subrange(start as int, j + 1));
        }
    }
    chars_to_string(&part)
}

/// True of the four whitespace characters that separate PGN tokens.
fn is_ws(c: char) -> (r: bool)
    ensures
        r == is_ws_char(c),
{
    c == ' ' || c == '\t' || c == '\r' || c == '\n'
}

/// True of an ASCII decimal digit.
fn is_digit(c: char) -> (r: bool)
    ensures
        r == is_digit_char(c),
{
    let d = c as u32;
    48 <= d && d <= 57
}

/// Walks one game text and emits exactly the parse events of
/// `tokenize_spec`, stopping after the first end-of-game marker.
/// Fails, with the spec's error, on a malformed header line, an
/// unterminated comment or variation, or a move token that the
/// move-notation capability rejects.
pub fn tokenize(s: &str) -> (r: Result<Vec<ParseEvent>, ParseError>)
    ensures
        r matches Ok(evs) ==> tokenize_spec(s@) == Result::<Seq<EventView>, ParseError>::Ok(
            crate::builder::events_view(evs@),
        ),
        r matches Err(e) ==> tokenize_spec(s@) == Result::<Seq<EventView>, ParseError>::Err(e),
        r matches Ok(evs) ==> sans_canonical(crate::builder::events_view(evs@)),
{
    let cs = str_to_chars(s);
    let n = cs.len();
    let mut evs: Vec<ParseEvent> = Vec::new();
    let mut i: usize = 0;
    proof {
        assert(crate::builder::events_view(evs@) =~= Seq::<EventView>::empty());
    }
    while i < n
        invariant
            i <= n,
            n == cs@.len(),
            cs@ == s@,
            tokenize_spec(s@) == tok_rec(cs@, i as int, crate::builder::events_view(evs@)),
            sans_canonical(crate::builder::events_view(evs@)),
        decreases n - i,
    {
        let ghost i0 = i as int;
        let ghost acc0 = crate::builder::events_view(evs@);
        let c = cs[i];
        if is_ws(c) {
            i = i + 1;
        } else if c == '[' {
            // a header line: `[Name "value"]`, with no escapes inside the value
            i = i + 1;
            let name_start = i;
            while i < n && cs[i] != ' ' && cs[i] != '"' && cs[i] != ']'
                invariant
                    name_start <= i <= n,
                    n == cs@.len(),
                    scan_name(cs@, name_start as int) == scan_name(cs@, i as int),
                decreases n - i,
            {
                i = i + 1;
            }
            proof {
                assert(scan_name(cs@, name_start as int) == i as int);
            }
            let name = chars_range_to_string(&cs, name_start, i);
            let ghost p1 = i as int;
            while i < n && cs[i] == ' '
                invariant
                    p1 <= i <= n,
                    n == cs@.len(),
                    scan_spaces(cs@, p1) == scan_spaces(cs@, i as int),
                decreases n - i,
            {
                i = i + 1;
            }
            proof {
                assert(scan_spaces(cs@, p1) == i as int);
            }
            if i >= n || cs[i] != '"' {
                proof {
                    assert(tokenize_spec(s@) == Result::<Seq<EventView>, ParseError>::Err(
                        ParseError::MalformedHeader,
                    ));
                }
                return Err(ParseError::MalformedHeader);
            }
            let ghost p2 = i as int;
            i = i + 1;
            let value_start = i;
            while i < n && cs[i] != '"'
                invariant
                    value_start <= i <= n,
                    n == cs@.len(),
                    scan_value(cs@, value_start as int) == scan_value(cs@, i as int),
                decreases n - i,
            {
                i = i + 1;
            }
            proof {
                assert(scan_value(cs@, p2 + 1) == i as int);
            }
            if i >= n {
                proof {
                    assert(tokenize_spec(s@) == Result::<Seq<EventView>, ParseError>::Err(
                        ParseError::MalformedHeader,
                    ));
                }
                return Err(ParseError::MalformedHeader);
            }
            let value = chars_range_to_string(&cs, value_start, i);
            let ghost p3 = i as int;
            i = i + 1;
            while i < n && cs[i] == ' '
                invariant
                    p3 < i <= n,
                    n == cs@.len(),
                    scan_spaces(cs@, p3 + 1) == scan_spaces(cs@, i as int),
                decreases n - i,
            {
                i = i + 1;
            }
            proof {
                assert(scan_spaces(cs@, p3 + 1) == i as int);
            }
            if i >= n || cs[i] != ']' {
                proof {
                    assert(tokenize_spec(s@) == Result::<Seq<EventView>, ParseError>::Err(
                        ParseError::MalformedHeader,
                    ));
                }
                return Err(ParseError::MalformedHeader);
            }
            let ghost p4 = i as int;
            i = i + 1;
            evs.push(ParseEvent::Tag(name, value));
            proof {
                assert(crate::builder::events_view(evs@) =~= acc0.push(
                    EventView::Tag(cs@.subrange(i0 + 1, p1), cs@.subrange(p2 + 1, p3)),
                ));
                assert(tok_rec(cs@, i0, acc0) == tok_rec(
                    cs@,
                    p4 + 1,
                    crate::builder::events_view(evs@),
                ));
            }
        } else if c == '{' {
            // a comment, discarded
            i = i + 1;
            let ghost c0 = i as int;
            while i < n && cs[i] != '}'
                invariant
                    c0 <= i <= n,
                    n == cs@.len(),
                    scan_comment(cs@, c0) == scan_comment(cs@, i as int),
                decreases n - i,
            {
                i = i + 1;
            }
            proof {
                assert(scan_comment(cs@, i0 + 1) == i as int);
            }
            if i >= n {
                proof {
                    assert(tokenize_spec(s@) == Result::<Seq<EventView>, ParseError>::Err(
                        ParseError::UnterminatedGame,
                    ));
                }
                return Err(ParseError::UnterminatedGame);
            }
            i = i + 1;
        } else if c == '(' {
            // a variation subtree, discarded
            let mut depth: usize = 1;
            i = i + 1;
            while i < n && depth > 0
                invariant
                    i0 < i <= n,
                    n == cs@.len(),
                    depth <= i,
                    scan_paren(cs@, i0 + 1, 1) == scan_paren(cs@, i as int, depth as int),
                decreases n - i,
            {
                if cs[i] == '(' {
                    depth = depth + 1;
                } else if cs[i] == ')' {
                    depth = depth - 1;
                }
                i = i + 1;
            }
            proof {
                assert(scan_paren(cs@, i0 + 1, 1) == (i as int, depth as int));
            }
            if depth > 0 {
                proof {
                    assert(tokenize_spec(s@) == Result::<Seq<EventView>, ParseError>::Err(
                        ParseError::UnterminatedGame,
                    ));
                }
                return Err(ParseError::UnterminatedGame);
            }
        } else if c == ';' {
            // a rest-of-line comment, discarded
            i = i + 1;
            let ghost l0 = i as int;
            while i < n && cs[i] != '\n'
                invariant
                    l0 <= i <= n,
                    n == cs@.len(),
                    scan_line(cs@, l0) == scan_line(cs@, i as int),
                decreases n - i,
            {
                i = i + 1;
            }
            proof {
                assert(scan_line(cs@, i0 + 1) == i as int);
            }
        } else {
            // one whitespace-delimited token
            let start = i;
            i = i + 1;
            while i < n && !is_ws(cs[i])
                invariant
                    start < i <= n,
                    n == cs@.len(),
                    scan_word(cs@, start + 1) == scan_word(cs@, i as int),
                decreases n - i,
            {
                i = i + 1;
            }
            proof {
                assert(scan_word(cs@, i0 + 1) == i as int);
            }
            let w = chars_range_to_string(&cs, start, i);
            let ghost wv = cs@.subrange(i0, i as int);
            if w == "1-0".to_owned() || w == "0-1".to_owned() || w == "1/2-1/2".to_owned() {
                evs.push(ParseEvent::End(Some(w)));
                proof {
                    assert(crate::builder::events_view(evs@) =~= acc0.push(
                        EventView::End(Some(wv)),
                    ));
                    assert(tok_rec(cs@, i0, acc0) == Result::<Seq<EventView>, ParseError>::Ok(
                        crate::builder::events_view(evs@),
                    ));
                }
                return Ok(evs);
            } else if w == "*".to_owned() {
                evs.push(ParseEvent::End(None));
                proof {
                    assert(crate::builder::events_view(evs@) =~= acc0.push(EventView::End(None)));
                    assert(tok_rec(cs@, i0, acc0) == Result::<Seq<EventView>, ParseError>::Ok(
                        crate::builder::events_view(evs@),
                    ));
                }
                return Ok(evs);
            } else if c == '$' {
                // a numeric annotation glyph, discarded
            } else if is_digit(c) {
                // a move number such as `1.` or `3...`, discarded
                let mut j = start;
                while j < i && is_digit(cs[j])
                    invariant
                        start <= j <= i <= n,
                        n == cs@.len(),
                        scan_digits(cs@, start as int, i as int) == scan_digits(
                            cs@,
                            j as int,
                            i as int,
                        ),
                    decreases i - j,
                {
                    j = j + 1;
                }
                proof {
                    assert(scan_digits(cs@, i0, i as int) == j as int);
                }
                let ghost j1 = j as int;
                while j < i && cs[j] == '.'
                    invariant
                        j1 <= j <= i <= n,
                        n == cs@.len(),
                        scan_dots(cs@, j1, i as int) == scan_dots(cs@, j as int, i as int),
                    decreases i - j,
                {
                    j = j + 1;
                }
                proof {
                    assert(scan_dots(cs@, j1, i as int) == j as int);
                }
                if j < i {
                    // a move token glued to its move number, as in `1.e4`
                    let mut e2 = i;
                    while e2 > j && (cs[e2 - 1] == '!' || cs[e2 - 1] == '?')
                        invariant
                            j <= e2 <= i <= n,
                            n == cs@.len(),
                            trim_annot(cs@, j as int, i as int) == trim_annot(
                                cs@,
                                j as int,
                                e2 as int,
                            ),
                        decreases e2,
                    {
                        e2 = e2 - 1;
                    }
                    proof {
                        assert(trim_annot(cs@, j as int, i as int) == e2 as int);
                    }
                    let t = chars_range_to_string(&cs, j, e2);
                    match SanPlusWrapper::from_str(t.as_str()) {
                        Some(m) => {
                            evs.push(ParseEvent::San(m));
                            proof {
                                assert(crate::builder::events_view(evs@) =~= acc0.push(
                                    EventView::San(m@),
                                ));
                                assert(tok_rec(cs@, i0, acc0) == tok_rec(
                                    cs@,
                                    i as int,
                                    crate::builder::events_view(evs@),
                                ));
                            }
                        },
                        None => {
                            proof {
                                assert(tokenize_spec(s@) == Result::<
                                    Seq<EventView>,
                                    ParseError,
                                >::Err(ParseError::InvalidMoveToken));
                            }
                            return Err(ParseError::InvalidMoveToken);
                        },
                    }
                }
            } else {
                let mut e2 = i;
                while e2 > start && (cs[e2 - 1] == '!' || cs[e2 - 1] == '?')
                    invariant
                        start <= e2 <= i <= n,
                        n == cs@.len(),
                        trim_annot(cs@, start as int, i as int) == trim_annot(
                            cs@,
                            start as int,
                            e2 as int,
                        ),
                    decreases e2,
                {
                    e2 = e2 - 1;
                }
                proof {
                    assert(trim_annot(cs@, start as int, i as int) == e2 as int);
                }
                let t = chars_range_to_string(&cs, start, e2);
                match SanPlusWrapper::from_str(t.as_str()) {
                    Some(m) => {
                        evs.push(ParseEvent::San(m));
                        proof {
                            assert(crate::builder::events_view(evs@) =~= acc0.push(
                                EventView::San(m@),
                            ));
                            assert(tok_rec(cs@, i0, acc0) == tok_rec(
                                cs@,
                                i as int,
                                crate::builder::events_view(evs@),
                            ));
                        }
                    },
                    None => {
                        proof {
                            assert(tokenize_spec(s@) == Result::<Seq<EventView>, ParseError>::Err(
                                ParseError::InvalidMoveToken,
                            ));
                        }
                        return Err(ParseError::InvalidMoveToken);
                    },
                }
            }
        }
        proof {
            assert(tokenize_spec(s@) == tok_rec(cs@, i as int, crate::builder::events_view(evs@)));
        }
    }
    proof {
        assert(tok_rec(cs@, i as int, crate::builder::events_view(evs@))
            == Result::<Seq<EventView>, ParseError>::Ok(crate::builder::events_view(evs@)));
    }
    Ok(evs)
}

impl PgnData {
    /// Builds a game from one PGN game text: tokenizes it and runs the
    /// parse events through the builder, so the result is exactly the
    /// game of `parse_outcome` — the builder's rules applied to the
    /// tokenized events (reduced-export-format filtering, last
    /// duplicate header wins, the terminator's result authoritative) —
    /// and the error is exactly the outcome's error.
    pub fn from_str(s: &str) -> (r: Result<PgnData, ParseError>)
        ensures
            r matches Ok(g) ==> parse_outcome(s@) == Result::<GameView, ParseError>::Ok(g@),
            r matches Err(e) ==> parse_outcome(s@) == Result::<GameView, ParseError>::Err(e),
            r matches Ok(g) ==> moves_canonical(g@.moves),
    {
        let evs = match tokenize(s) {
            Ok(e) => e,
            Err(e) => {
                return Err(e);
            },
        };
        match build_from_events(&evs) {
            Ok(g) => {
                proof {
                    assert(build_spec(crate::builder::events_view(evs@)) == Some(g@));
                    lemma_moves_canonical(
                        empty_game(),
                        crate::builder::events_view(evs@),
                        g@,
                    );
                }
                Ok(g)
            },
            Err(e) => Err(e),
        }
    }
}

} // verus!
