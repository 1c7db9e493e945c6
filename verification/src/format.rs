//! Deterministic rendering of a game to its canonical text: the seven
//! header lines in fixed order, one blank line, then the numbered move
//! text and result, greedily word-wrapped to at most [`crate::LINE_WIDTH`]
//! characters per line, breaking only at inter-token spaces.

use vstd::prelude::*;

use crate::pgn_data::{GameView, HeadersView, PgnData};

verus! {

/// The decimal digit character for `d` (`d < 10`).
pub open spec fn digit_char(d: nat) -> char {
    if d == 0 { '0' }
    else if d == 1 { '1' }
    else if d == 2 { '2' }
    else if d == 3 { '3' }
    else if d == 4 { '4' }
    else if d == 5 { '5' }
    else if d == 6 { '6' }
    else if d == 7 { '7' }
    else if d == 8 { '8' }
    else { '9' }
}

/// The usual decimal rendering of `n`, most significant digit first,
/// without leading zeros (`0` renders as `"0"`).
pub open spec fn dec_str(n: nat) -> Seq<char>
    decreases n,
{
    if n < 10 {
        seq![digit_char(n)]
    } else {
        dec_str(n / 10) + seq![digit_char(n % 10)]
    }
}

/// The single-character string for digit `d`.
fn digit_str(d: u64) -> (r: &'static str)
    requires
        d < 10,
    ensures
        r@ == seq![digit_char(d as nat)],
{
    proof {
        reveal_strlit("0");
        reveal_strlit("1");
        reveal_strlit("2");
        reveal_strlit("3");
        reveal_strlit("4");
        reveal_strlit("5");
        reveal_strlit("6");
        reveal_strlit("7");
        reveal_strlit("8");
        reveal_strlit("9");
    }
    let r = if d == 0 { "0" }
    else if d == 1 { "1" }
    else if d == 2 { "2" }
    else if d == 3 { "3" }
    else if d == 4 { "4" }
    else if d == 5 { "5" }
    else if d == 6 { "6" }
    else if d == 7 { "7" }
    else if d == 8 { "8" }
    else { "9" };
    proof {
        assert(r@ =~= seq![digit_char(d as nat)]);
    }
    r
}

/// Renders `n` in decimal.
fn u64_to_dec(n: u64) -> (r: String)
    ensures
        r@ == dec_str(n as nat),
    decreases n,
{
    if n < 10 {
        let mut s = String::new();
        s.append(digit_str(n));
        s
    } else {
        proof {
            assert(n / 10 < n) by (nonlinear_arith)
                requires n >= 10;
        }
        let mut s = u64_to_dec(n / 10);
        s.append(digit_str(n % 10));
        s
    }
}

/// The words of the move/result section coming from the moves alone:
/// before the move at each even index stands its move-number word
/// (`"1."`, `"2."`, ...), and every move is one word of its own.
pub open spec fn move_words(moves: Seq<Seq<char>>) -> Seq<Seq<char>>
    decreases moves.len(),
{
    if moves.len() == 0 {
        Seq::<Seq<char>>::empty()
    } else {
        let i = moves.len() - 1;
        let prev = move_words(moves.drop_last());
        if i % 2 == 0 {
            prev + seq![dec_str((i / 2 + 1) as nat) + seq!['.'], moves[i]]
        } else {
            prev.push(moves[i])
        }
    }
}

/// All words of the move/result section: the numbered moves, then the
/// result string as a final word when it is not empty.
pub open spec fn section_words_spec(g: GameView) -> Seq<Seq<char>> {
    if g.headers.result.len() == 0 {
        move_words(g.moves)
    } else {
        move_words(g.moves).push(g.headers.result)
    }
}

/// Greedy word wrap: each word in order goes onto the current line when
/// it fits within [`crate::LINE_WIDTH`] after a separating space, and
/// onto a fresh line otherwise.  Words are never split.
pub open spec fn wrap_words(words: Seq<Seq<char>>) -> Seq<Seq<char>>
    decreases words.len(),
{
    if words.len() == 0 {
        Seq::<Seq<char>>::empty()
    } else {
        let prev = wrap_words(words.drop_last());
        let w = words.last();
        if prev.len() == 0 {
            seq![w]
        } else if prev.last().len() + 1 + w.len() <= crate::LINE_WIDTH {
            prev.update(prev.len() - 1, prev.last() + seq![' '] + w)
        } else {
            prev.push(w)
        }
    }
}

/// The lines joined with a line break between each two.
pub open spec fn join_lines(lines: Seq<Seq<char>>) -> Seq<char>
    decreases lines.len(),
{
    if lines.len() == 0 {
        Seq::<char>::empty()
    } else if lines.len() == 1 {
        lines[0]
    } else {
        join_lines(lines.drop_last()) + seq!['\n'] + lines.last()
    }
}

/// The words joined with a single space between each two.
pub open spec fn join_words(words: Seq<Seq<char>>) -> Seq<char>
    decreases words.len(),
{
    if words.len() == 0 {
        Seq::<char>::empty()
    } else if words.len() == 1 {
        words[0]
    } else {
        join_words(words.drop_last()) + seq![' '] + words.last()
    }
}

/// One rendered header line: `[Name "value"]` and a line break.
pub open spec fn header_line(name: Seq<char>, value: Seq<char>) -> Seq<char> {
    seq!['['] + name + seq![' ', '"'] + value + seq!['"', ']', '\n']
}

/// The header block: the seven header lines in their fixed order.
pub open spec fn header_block(h: HeadersView) -> Seq<char> {
    header_line("Event"@, h.event) + header_line("Site"@, h.site) + header_line("Date"@, h.date)
        + header_line("Round"@, h.round) + header_line("White"@, h.white)
        + header_line("Black"@, h.black) + header_line("Result"@, h.result)
}

/// The canonical text of a game: the header block, one blank line, and
/// the wrapped move/result section.
pub open spec fn format_spec(g: GameView) -> Seq<char> {
    header_block(g.headers) + seq!['\n'] + join_lines(wrap_words(section_words_spec(g)))
}

/// Every line the greedy wrap produces stays within `LINE_WIDTH`
/// characters, as long as every word does.
pub proof fn lemma_wrap_line_width(words: Seq<Seq<char>>)
    requires
        forall|i: int| 0 <= i < words.len() ==> #[trigger] words[i].len() <= crate::LINE_WIDTH,
    ensures
        forall|j: int|
            0 <= j < wrap_words(words).len() ==> #[trigger] wrap_words(words)[j].len()
                <= crate::LINE_WIDTH,
    decreases words.len(),
{
    if words.len() > 0 {
        assert forall|i: int| 0 <= i < words.drop_last().len() implies #[trigger] words.drop_last()[i].len()
            <= crate::LINE_WIDTH by {
            assert(words.drop_last()[i] == words[i]);
            assert(words[i].len() <= crate::LINE_WIDTH);
        }
        lemma_wrap_line_width(words.drop_last());
        let prev = wrap_words(words.drop_last());
        let w = words.last();
        assert(w.len() <= crate::LINE_WIDTH) by {
            assert(words[words.len() - 1].len() <= crate::LINE_WIDTH);
        }
        let r = wrap_words(words);
        assert forall|j: int| 0 <= j < r.len() implies #[trigger] r[j].len() <= crate::LINE_WIDTH by {
            if prev.len() == 0 {
            } else if prev.last().len() + 1 + w.len() <= crate::LINE_WIDTH {
                assert(prev[prev.len() - 1].len() <= crate::LINE_WIDTH);
                if j < prev.len() - 1 {
                    assert(prev[j].len() <= crate::LINE_WIDTH);
                }
            } else {
                if j < prev.len() {
                    assert(prev[j].len() <= crate::LINE_WIDTH);
                }
            }
        }
    }
}

/// The greedy wrap breaks only at the spaces between words and never
/// inside a word: joining the wrapped lines with single spaces gives
/// back exactly the words joined with single spaces.
pub proof fn lemma_wrap_preserves_words(words: Seq<Seq<char>>)
    ensures
        join_words(wrap_words(words)) == join_words(words),
    decreases words.len(),
{
    if words.len() > 0 {
        lemma_wrap_preserves_words(words.drop_last());
        let prev = wrap_words(words.drop_last());
        let w = words.last();
        if prev.len() == 0 {
            // first word: both sides are the word itself
            assert(join_words(words.drop_last()).len() == 0) by {
                lemma_join_words_empty(words.drop_last());
            }
            if words.len() == 1 {
                assert(join_words(words) =~= w);
            } else {
                // impossible: a non-empty prefix always wraps to some line
                lemma_wrap_nonempty(words.drop_last());
                assert(join_words(words) =~= join_words(words.drop_last()) + seq![' '] + w);
                assert(join_words(wrap_words(words)) =~= join_words(words));
            }
        } else if prev.last().len() + 1 + w.len() <= crate::LINE_WIDTH {
            let merged = prev.update(prev.len() - 1, prev.last() + seq![' '] + w);
            lemma_join_words_update_last(prev, w);
            lemma_wrap_nonempty_rev(words.drop_last());
            assert(join_words(words) =~= join_words(words.drop_last()) + seq![' '] + w);
            assert(join_words(merged) =~= join_words(words));
        } else {
            lemma_join_words_push(prev, w);
            lemma_wrap_nonempty_rev(words.drop_last());
            assert(join_words(words) =~= join_words(words.drop_last()) + seq![' '] + w);
            assert(join_words(prev.push(w)) =~= join_words(words));
        }
    }
}

/// An empty join comes only from no words at all.
proof fn lemma_join_words_empty(words: Seq<Seq<char>>)
    ensures
        words.len() == 0 ==> join_words(words).len() == 0,
{
}

/// A non-empty word sequence wraps to at least one line.
proof fn lemma_wrap_nonempty(words: Seq<Seq<char>>)
    ensures
        wrap_words(words).len() == 0 ==> words.len() == 0,
    decreases words.len(),
{
    if words.len() > 0 {
        lemma_wrap_nonempty(words.drop_last());
    }
}

/// A non-empty word sequence wraps to at least one line (converse form).
proof fn lemma_wrap_nonempty_rev(words: Seq<Seq<char>>)
    ensures
        words.len() > 0 ==> wrap_words(words).len() > 0,
    decreases words.len(),
{
    if words.len() > 0 {
        lemma_wrap_nonempty_rev(words.drop_last());
    }
}

/// Extending the last line by a space and a word extends the join the
/// same way.
proof fn lemma_join_words_update_last(lines: Seq<Seq<char>>, w: Seq<char>)
    requires
        lines.len() > 0,
    ensures
        join_words(lines.update(lines.len() - 1, lines.last() + seq![' '] + w)) == join_words(lines)
            + seq![' '] + w,
{
    let merged = lines.update(lines.len() - 1, lines.last() + seq![' '] + w);
    assert(merged.last() == lines.last() + seq![' '] + w);
    if lines.len() == 1 {
        assert(merged.len() == 1);
        assert(join_words(merged) =~= join_words(lines) + seq![' '] + w);
    } else {
        assert(merged.drop_last() =~= lines.drop_last());
        assert(join_words(merged) =~= join_words(lines) + seq![' '] + w);
    }
}

/// Starting a fresh line with a word extends the join by a space and
/// that word.
proof fn lemma_join_words_push(lines: Seq<Seq<char>>, w: Seq<char>)
    requires
        lines.len() > 0,
    ensures
        join_words(lines.push(w)) == join_words(lines) + seq![' '] + w,
{
    assert(lines.push(w).drop_last() =~= lines);
    assert(lines.push(w).last() == w);
    assert(join_words(lines.push(w)) =~= join_words(lines) + seq![' '] + w);
}

/// Ten to the power `d`.
pub open spec fn pow10(d: nat) -> nat
    decreases d,
{
    if d == 0 {
        1
    } else {
        10 * pow10((d - 1) as nat)
    }
}

/// The decimal rendering of `n` has at most `d` digits when `n` is
/// below ten to the `d`.
proof fn lemma_dec_str_len(n: nat, d: nat)
    requires
        d >= 1,
        n < pow10(d),
    ensures
        dec_str(n).len() <= d,
    decreases d,
{
    if n < 10 {
    } else {
        if d == 1 {
            assert(pow10(0) == 1);
            assert(pow10(1) == 10);
        }
        assert(pow10(d) == 10 * pow10((d - 1) as nat));
        assert(n / 10 < pow10((d - 1) as nat)) by (nonlinear_arith)
            requires
                n < pow10(d),
                pow10(d) == 10 * pow10((d - 1) as nat),
        ;
        lemma_dec_str_len(n / 10, (d - 1) as nat);
    }
}

/// Every word of the move section is short: a move-number word has at
/// most 21 characters, and a move word is bounded by the moves
/// themselves.
proof fn lemma_move_words_bounded(moves: Seq<Seq<char>>)
    requires
        forall|i: int| 0 <= i < moves.len() ==> #[trigger] moves[i].len() <= crate::LINE_WIDTH,
        moves.len() < 0x1_0000_0000_0000_0000,
    ensures
        forall|j: int|
            0 <= j < move_words(moves).len() ==> #[trigger] move_words(moves)[j].len()
                <= crate::LINE_WIDTH,
    decreases moves.len(),
{
    if moves.len() > 0 {
        assert forall|i: int| 0 <= i < moves.drop_last().len() implies #[trigger] moves.drop_last()[i].len()
            <= crate::LINE_WIDTH by {
            assert(moves.drop_last()[i] == moves[i]);
            assert(moves[i].len() <= crate::LINE_WIDTH);
        }
        lemma_move_words_bounded(moves.drop_last());
        let i = moves.len() - 1;
        assert(moves[i].len() <= crate::LINE_WIDTH);
        if i % 2 == 0 {
            assert(dec_str((i / 2 + 1) as nat).len() <= 20) by {
                reveal_with_fuel(pow10, 21);
                assert(pow10(20) == 100000000000000000000);
                lemma_dec_str_len((i / 2 + 1) as nat, 20);
            }
            let r = move_words(moves);
            assert forall|j: int| 0 <= j < r.len() implies #[trigger] r[j].len()
                <= crate::LINE_WIDTH by {
                if j < move_words(moves.drop_last()).len() {
                    assert(move_words(moves.drop_last())[j].len() <= crate::LINE_WIDTH);
                }
            }
        } else {
            let r = move_words(moves);
            assert forall|j: int| 0 <= j < r.len() implies #[trigger] r[j].len()
                <= crate::LINE_WIDTH by {
                if j < move_words(moves.drop_last()).len() {
                    assert(move_words(moves.drop_last())[j].len() <= crate::LINE_WIDTH);
                }
            }
        }
    }
}

/// Wrap invariant for a whole formatted game: when no move is longer
/// than `LINE_WIDTH` characters and neither is the result string,
/// every line of the formatted move/result section stays within
/// `LINE_WIDTH` characters — and by `lemma_wrap_preserves_words` no
/// line break ever falls inside a token.
pub proof fn lemma_format_section_within_width(g: GameView)
    requires
        forall|i: int| 0 <= i < g.moves.len() ==> #[trigger] g.moves[i].len() <= crate::LINE_WIDTH,
        g.headers.result.len() <= crate::LINE_WIDTH,
        g.moves.len() < 0x1_0000_0000_0000_0000,
    ensures
        forall|j: int|
            0 <= j < wrap_words(section_words_spec(g)).len() ==> #[trigger] wrap_words(
                section_words_spec(g),
            )[j].len() <= crate::LINE_WIDTH,
{
    lemma_move_words_bounded(g.moves);
    let ws = section_words_spec(g);
    assert forall|i: int| 0 <= i < ws.len() implies #[trigger] ws[i].len() <= crate::LINE_WIDTH by {
        if i < move_words(g.moves).len() {
            assert(move_words(g.moves)[i].len() <= crate::LINE_WIDTH);
        }
    }
    lemma_wrap_line_width(ws);
}

/// Appends `[name "value"]` and a line break.
fn push_header_line(out: &mut String, name: &str, value: &str)
    ensures
        final(out)@ == old(out)@ + header_line(name@, value@),
{
    out.append("[");
    out.append(name);
    out.append(" \"");
    out.append(value);
    out.append("\"]\n");
    proof {
        reveal_strlit("[");
        reveal_strlit(" \"");
        reveal_strlit("\"]\n");
        assert(final(out)@ =~= old(out)@ + header_line(name@, value@));
    }
}

/// Builds the words of the move/result section.
fn build_section_words(g: &PgnData) -> (r: Vec<String>)
    ensures
        r.deep_view() == section_words_spec(g@),
{
    let mut words: Vec<String> = Vec::new();
    let n = g.moves.len();
    proof {
        assert(g@.moves.take(0) =~= Seq::<Seq<char>>::empty());
        assert(words.deep_view() =~= move_words(g@.moves.take(0)));
    }
    for i in 0..n
        invariant
            n == g.moves.len(),
            g@.moves.len() == n,
            words.deep_view() == move_words(g@.moves.take(i as int)),
    {
        proof {
            assert(g@.moves.take(i + 1).drop_last() =~= g@.moves.take(i as int));
            assert(g@.moves.take(i + 1).last() == g@.moves[i as int]);
            assert(g@.moves[i as int] == g.moves[i as int].deep_view());
        }
        if i % 2 == 0 {
            let num = i / 2 + 1;
            let mut w = u64_to_dec(num as u64);
            w.append(".");
            proof {
                reveal_strlit(".");
                assert(w@ =~= dec_str((i / 2 + 1) as nat) + seq!['.']);
            }
            words.push(w);
        }
        words.push(g.moves[i].0.clone());
        proof {
            assert(words.deep_view() =~= move_words(g@.moves.take(i + 1)));
        }
    }
    proof {
        assert(g@.moves.take(n as int) =~= g@.moves);
    }
    if !g.headers.result.as_str().is_empty() {
        words.push(g.headers.result.clone());
        proof {
            assert(words.deep_view() =~= section_words_spec(g@));
        }
    } else {
        proof {
            assert(words.deep_view() =~= section_words_spec(g@));
        }
    }
    words
}

/// Greedily wraps the words into lines of at most `LINE_WIDTH` characters.
fn wrap_exec(words: &Vec<String>) -> (r: Vec<String>)
    ensures
        r.deep_view() == wrap_words(words.deep_view()),
{
    let mut lines: Vec<String> = Vec::new();
    let n = words.len();
    proof {
        assert(words.deep_view().take(0) =~= Seq::<Seq<char>>::empty());
        assert(lines.deep_view() =~= wrap_words(words.deep_view().take(0)));
    }
    for i in 0..n
        invariant
            n == words.len(),
            words.deep_view().len() == n,
            lines.deep_view() == wrap_words(words.deep_view().take(i as int)),
    {
        proof {
            assert(words.deep_view().take(i + 1).drop_last() =~= words.deep_view().take(i as int));
            assert(words.deep_view().take(i + 1).last() == words.deep_view()[i as int]);
            assert(words.deep_view()[i as int] == words[i as int]@);
        }
        let w_len = words[i].as_str().unicode_len();
        if lines.len() == 0 {
            lines.push(words[i].clone());
        } else {
            let last_idx = lines.len() - 1;
            let last_len = lines[last_idx].as_str().unicode_len();
            proof {
                assert(lines.deep_view()[last_idx as int] == lines[last_idx as int]@);
            }
            if last_len < crate::LINE_WIDTH && w_len <= crate::LINE_WIDTH - 1 - last_len {
                let ghost prev = lines.deep_view();
                let mut line = lines.pop().unwrap();
                line.append(" ");
                line.append(words[i].as_str());
                proof {
                    reveal_strlit(" ");
                    assert(" "@ =~= seq![' ']);
                    assert(line@ == prev.last() + seq![' '] + words.deep_view()[i as int]);
                }
                lines.push(line);
                proof {
                    assert(lines.deep_view() =~= prev.update(
                        prev.len() - 1,
                        prev.last() + seq![' '] + words.deep_view()[i as int],
                    ));
                }
            } else {
                lines.push(words[i].clone());
            }
        }
        proof {
            assert(lines.deep_view() =~= wrap_words(words.deep_view().take(i + 1)));
        }
    }
    proof {
        assert(words.deep_view().take(n as int) =~= words.deep_view());
    }
    lines
}

/// Joins the lines with line breaks.
fn join_lines_exec(lines: &Vec<String>) -> (r: String)
    ensures
        r@ == join_lines(lines.deep_view()),
{
    let mut out = String::new();
    let n = lines.len();
    proof {
        assert(lines.deep_view().take(0) =~= Seq::<Seq<char>>::empty());
    }
    for i in 0..n
        invariant
            n == lines.len(),
            lines.deep_view().len() == n,
            out@ == join_lines(lines.deep_view().take(i as int)),
    {
        if i > 0 {
            out.append("\n");
        }
        out.append(lines[i].as_str());
        proof {
            reveal_strlit("\n");
            assert(lines.deep_view().take(i + 1).drop_last() =~= lines.deep_view().take(i as int));
            assert(lines.deep_view().take(i + 1).last() == lines[i as int]@);
            assert(out@ =~= join_lines(lines.deep_view().take(i + 1)));
        }
    }
    proof {
        assert(lines.deep_view().take(n as int) =~= lines.deep_view());
    }
    out
}

impl PgnData {
    /// Renders the game as its canonical reduced-export-format text:
    /// the seven header lines in fixed order, one blank line, then the
    /// numbered move text and result, wrapped to `LINE_WIDTH` characters.
    pub fn to_string(&self) -> (r: String)
        ensures
            r@ == format_spec(self@),
    {
        let mut out = String::new();
        push_header_line(&mut out, "Event", self.headers.event.as_str());
        push_header_line(&mut out, "Site", self.headers.site.as_str());
        push_header_line(&mut out, "Date", self.headers.date.as_str());
        push_header_line(&mut out, "Round", self.headers.round.as_str());
        push_header_line(&mut out, "White", self.headers.white.as_str());
        push_header_line(&mut out, "Black", self.headers.black.as_str());
        push_header_line(&mut out, "Result", self.headers.result.as_str());
        out.append("\n");
        let words = build_section_words(self);
        let lines = wrap_exec(&words);
        let section = join_lines_exec(&lines);
        out.append(section.as_str());
        proof {
            reveal_strlit("\n");
            assert(out@ =~= format_spec(self@));
        }
        out
    }
}

} // verus!
