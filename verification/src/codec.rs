//! Binary codec: a deterministic length-prefixed layout of the seven
//! header strings and the move strings, compressed with a zlib stream
//! at the maximum compression level.  Decoding reverses both steps
//! exactly: every encoded game decodes back to an equal game, and a
//! successful structural decode happens only on an exact encoding.

use vstd::prelude::*;

use vstd::bytes::{
    lemma_auto_spec_u64_to_from_le_bytes, spec_u64_to_le_bytes, u64_from_le_bytes, u64_to_le_bytes,
};
use vstd::slice::{slice_subrange, slice_to_vec};
use vstd::utf8::{decode_utf8, encode_utf8, encode_utf8_decode_utf8, encode_utf8_valid_utf8, valid_utf8};

use crate::builder::ParseError;
use crate::format::format_spec;
use crate::parse::parse_outcome;
use crate::pgn_data::{
    moves_canonical, san_token, GameView, HeadersView, PgnData, PgnHeaders, SanPlusWrapper,
};

verus! {

/// Failure to decode a binary blob back into a game.
#[derive(Clone, Copy, Debug, PartialEq, Eq, Structural)]
pub enum CodecError {
    /// The compressed stream is corrupt or truncated.
    CorruptStream,
    /// The structural layout is malformed: a length prefix exceeds the
    /// remaining bytes, the bytes end unexpectedly, or a string is not
    /// valid UTF-8.
    MalformedLayout,
    /// Bytes remain after a structurally complete decode.
    TrailingBytes,
}

/// One length-prefixed string: the byte length of its UTF-8 encoding as
/// eight little-endian bytes, then the encoding itself.
pub open spec fn enc_str(s: Seq<char>) -> Seq<u8> {
    spec_u64_to_le_bytes(encode_utf8(s).len() as u64) + encode_utf8(s)
}

/// A sequence of length-prefixed strings, one after the other.
pub open spec fn enc_strs(ss: Seq<Seq<char>>) -> Seq<u8>
    decreases ss.len(),
{
    if ss.len() == 0 {
        Seq::<u8>::empty()
    } else {
        enc_str(ss.first()) + enc_strs(ss.drop_first())
    }
}

/// The seven header fields in their fixed order.
pub open spec fn header_fields(h: HeadersView) -> Seq<Seq<char>> {
    seq![h.event, h.site, h.date, h.round, h.white, h.black, h.result]
}

/// The structural (pre-compression) encoding of a game: the seven
/// header strings, the move count as eight little-endian bytes, then
/// each move string, all length-prefixed.
pub open spec fn encode_spec(g: GameView) -> Seq<u8> {
    enc_strs(header_fields(g.headers)) + spec_u64_to_le_bytes(g.moves.len() as u64) + enc_strs(
        g.moves,
    )
}

/// `chunk` occurs in `b` exactly at offset `pos`.
pub open spec fn prefix_at(b: Seq<u8>, pos: int, chunk: Seq<u8>) -> bool {
    &&& 0 <= pos
    &&& pos + chunk.len() <= b.len()
    &&& b.subrange(pos, pos + chunk.len()) == chunk
}

proof fn lemma_prefix_at_concat(b: Seq<u8>, pos: int, x: Seq<u8>, y: Seq<u8>)
    requires
        prefix_at(b, pos, x + y),
    ensures
        prefix_at(b, pos, x),
        prefix_at(b, pos + x.len(), y),
{
    assert(b.subrange(pos, pos + x.len()) =~= x) by {
        assert forall|k: int| 0 <= k < x.len() implies b.subrange(pos, pos + x.len())[k] == x[k] by {
            assert(b.subrange(pos, pos + (x + y).len())[k] == (x + y)[k]);
        }
    }
    assert(b.subrange(pos + x.len(), pos + x.len() + y.len()) =~= y) by {
        assert forall|k: int| 0 <= k < y.len() implies b.subrange(
            pos + x.len(),
            pos + x.len() + y.len(),
        )[k] == y[k] by {
            assert(b.subrange(pos, pos + (x + y).len())[x.len() + k] == (x + y)[x.len() + k]);
        }
    }
}

proof fn lemma_enc_strs_snoc(ss: Seq<Seq<char>>, x: Seq<char>)
    ensures
        enc_strs(ss.push(x)) == enc_strs(ss) + enc_str(x),
    decreases ss.len(),
{
    if ss.len() == 0 {
        assert(ss.push(x).len() == 1);
        assert(ss.push(x)[0] == x);
        assert(ss.push(x).drop_first() =~= Seq::<Seq<char>>::empty());
        assert(enc_strs(ss.push(x)) == enc_str(x) + enc_strs(Seq::<Seq<char>>::empty()));
        assert(enc_strs(ss.push(x)) =~= enc_strs(ss) + enc_str(x));
    } else {
        assert(ss.push(x)[0] == ss[0]);
        assert(ss.push(x).drop_first() =~= ss.drop_first().push(x));
        lemma_enc_strs_snoc(ss.drop_first(), x);
        assert(enc_strs(ss.push(x)) == enc_str(ss.first()) + (enc_strs(ss.drop_first()) + enc_str(
            x,
        )));
        assert(enc_strs(ss.push(x)) =~= enc_strs(ss) + enc_str(x));
    }
}

proof fn lemma_enc_strs_split(ss: Seq<Seq<char>>, i: int)
    requires
        0 <= i <= ss.len(),
    ensures
        enc_strs(ss) == enc_strs(ss.take(i)) + enc_strs(ss.skip(i)),
    decreases i,
{
    if i == 0 {
        assert(ss.take(0) =~= Seq::<Seq<char>>::empty());
        assert(ss.skip(0) =~= ss);
        assert(enc_strs(ss) =~= enc_strs(ss.take(0)) + enc_strs(ss.skip(0)));
    } else {
        lemma_enc_strs_split(ss.drop_first(), i - 1);
        assert(ss.take(i).first() == ss.first());
        assert(ss.take(i).drop_first() =~= ss.drop_first().take(i - 1));
        assert(ss.skip(i) =~= ss.drop_first().skip(i - 1));
        assert(enc_strs(ss.take(i)) == enc_str(ss.first()) + enc_strs(ss.drop_first().take(i - 1)));
        assert(enc_strs(ss) =~= enc_strs(ss.take(i)) + enc_strs(ss.skip(i)));
    }
}

proof fn lemma_enc_strs_len(ss: Seq<Seq<char>>)
    ensures
        enc_strs(ss).len() >= 8 * ss.len(),
    decreases ss.len(),
{
    lemma_auto_spec_u64_to_from_le_bytes();
    if ss.len() > 0 {
        lemma_enc_strs_len(ss.drop_first());
    }
}

/// Unfolds `enc_strs` over the seven header fields.
#[verifier::rlimit(60)]
#[verifier::spinoff_prover]
proof fn lemma_enc_strs_headers(h: HeadersView)
    ensures
        enc_strs(header_fields(h)) == enc_str(h.event) + enc_str(h.site) + enc_str(h.date)
            + enc_str(h.round) + enc_str(h.white) + enc_str(h.black) + enc_str(h.result),
{
    let s0 = header_fields(h);
    let s1 = seq![h.site, h.date, h.round, h.white, h.black, h.result];
    let s2 = seq![h.date, h.round, h.white, h.black, h.result];
    let s3 = seq![h.round, h.white, h.black, h.result];
    let s4 = seq![h.white, h.black, h.result];
    let s5 = seq![h.black, h.result];
    let s6 = seq![h.result];
    assert(s0.drop_first() =~= s1);
    assert(s1.drop_first() =~= s2);
    assert(s2.drop_first() =~= s3);
    assert(s3.drop_first() =~= s4);
    assert(s4.drop_first() =~= s5);
    assert(s5.drop_first() =~= s6);
    assert(s6.drop_first() =~= Seq::<Seq<char>>::empty());
    assert(enc_strs(s6) == enc_str(h.result) + enc_strs(Seq::<Seq<char>>::empty()));
    assert(enc_strs(s6) =~= enc_str(h.result));
    assert(enc_strs(s5) == enc_str(h.black) + enc_strs(s6));
    assert(enc_strs(s4) == enc_str(h.white) + enc_strs(s5));
    assert(enc_strs(s3) == enc_str(h.round) + enc_strs(s4));
    assert(enc_strs(s2) == enc_str(h.date) + enc_strs(s3));
    assert(enc_strs(s1) == enc_str(h.site) + enc_strs(s2));
    assert(enc_strs(s0) == enc_str(h.event) + enc_strs(s1));
    assert(enc_strs(header_fields(h)) =~= enc_str(h.event) + enc_str(h.site) + enc_str(h.date)
        + enc_str(h.round) + enc_str(h.white) + enc_str(h.black) + enc_str(h.result));
}

/// Splits an exact encoding into its three parts.
proof fn lemma_encode_parts(b: Seq<u8>, gv: GameView)
    requires
        b == encode_spec(gv),
    ensures
        prefix_at(b, 0, enc_strs(header_fields(gv.headers))),
        prefix_at(
            b,
            enc_strs(header_fields(gv.headers)).len() as int,
            spec_u64_to_le_bytes(gv.moves.len() as u64),
        ),
        prefix_at(b, enc_strs(header_fields(gv.headers)).len() as int + 8, enc_strs(gv.moves)),
        b.len() == enc_strs(header_fields(gv.headers)).len() + 8 + enc_strs(gv.moves).len(),
{
    lemma_auto_spec_u64_to_from_le_bytes();
    let x = enc_strs(header_fields(gv.headers));
    let y = spec_u64_to_le_bytes(gv.moves.len() as u64);
    let z = enc_strs(gv.moves);
    assert(b.subrange(0, b.len() as int) =~= b);
    assert((x + y) + z =~= (x + y) + z);
    lemma_prefix_at_concat(b, 0, x + y, z);
    assert(b.subrange(0, (x + y).len() as int) == x + y);
    lemma_prefix_at_concat(b, 0, x, y);
}

/// Reads eight bytes as a little-endian length.
fn read_u64(b: &Vec<u8>, pos: usize) -> (r: Option<(u64, usize)>)
    requires
        pos <= b@.len(),
    ensures
        r matches Some(p) ==> p.1 == pos + 8 && prefix_at(b@, pos as int, spec_u64_to_le_bytes(p.0)),
        pos + 8 <= b@.len() ==> r is Some,
        forall|m: u64| prefix_at(b@, pos as int, spec_u64_to_le_bytes(m)) ==> (r matches Some(p)
            && p.0 == m),
{
    proof {
        lemma_auto_spec_u64_to_from_le_bytes();
    }
    if b.len() - pos >= 8 {
        let s = slice_subrange(b.as_slice(), pos, pos + 8);
        let x = u64_from_le_bytes(s);
        proof {
            assert(b@.subrange(pos as int, pos + 8) == spec_u64_to_le_bytes(x));
            assert forall|m: u64| prefix_at(b@, pos as int, spec_u64_to_le_bytes(m)) implies x
                == m by {
                assert(spec_u64_to_le_bytes(m) == b@.subrange(pos as int, pos + 8));
            }
        }
        Some((x, pos + 8))
    } else {
        None
    }
}

/// Relies on `String::from_utf8`: it returns exactly the string whose
/// UTF-8 encoding the given bytes are, and errs when the bytes are not
/// valid UTF-8.
#[verifier::external_body]
fn bytes_to_string(b: Vec<u8>) -> (r: Option<String>)
    ensures
        r matches Some(s) ==> b@ == encode_utf8(s@),
        valid_utf8(b@) ==> r is Some,
{
    String::from_utf8(b).ok()
}

/// Reads one length-prefixed string.
fn read_str(b: &Vec<u8>, pos: usize) -> (r: Result<(String, usize), CodecError>)
    requires
        pos <= b@.len(),
    ensures
        r matches Ok(p) ==> pos <= p.1 <= b@.len() && b@.subrange(pos as int, p.1 as int) == enc_str(
            p.0@,
        ),
        forall|cs: Seq<char>| prefix_at(b@, pos as int, enc_str(cs)) ==> (r matches Ok(p) && p.0@
            == cs && p.1 == pos + enc_str(cs).len()),
        r matches Err(e) ==> e == CodecError::MalformedLayout,
{
    proof {
        lemma_auto_spec_u64_to_from_le_bytes();
        broadcast use encode_utf8_valid_utf8;
        broadcast use encode_utf8_decode_utf8;
        assert forall|cs: Seq<char>| prefix_at(b@, pos as int, enc_str(cs)) implies prefix_at(
            b@,
            pos as int,
            spec_u64_to_le_bytes(encode_utf8(cs).len() as u64),
        ) && prefix_at(b@, pos + 8, encode_utf8(cs)) by {
            lemma_prefix_at_concat(
                b@,
                pos as int,
                spec_u64_to_le_bytes(encode_utf8(cs).len() as u64),
                encode_utf8(cs),
            );
        }
    }
    match read_u64(b, pos) {
        Some((n, p1)) => {
            if n <= (b.len() - p1) as u64 {
                let len = n as usize;
                let bytes = slice_to_vec(slice_subrange(b.as_slice(), p1, p1 + len));
                let ghost piece = b@.subrange(p1 as int, p1 + len as int);
                match bytes_to_string(bytes) {
                    Some(s) => {
                        proof {
                            assert(piece == encode_utf8(s@));
                            assert(encode_utf8(s@).len() == len);
                            assert(b@.subrange(pos as int, p1 + len as int) =~= spec_u64_to_le_bytes(
                                n,
                            ) + piece);
                            assert(b@.subrange(pos as int, p1 + len as int) == enc_str(s@));
                            assert forall|cs: Seq<char>| prefix_at(b@, pos as int, enc_str(cs))
                                implies s@ == cs && p1 + len == pos + enc_str(cs).len() by {
                                assert(encode_utf8(cs).len() < 0x1_0000_0000_0000_0000);
                                assert(n == encode_utf8(cs).len() as u64);
                                assert(piece == encode_utf8(cs));
                                assert(decode_utf8(encode_utf8(s@)) == s@) by {
                                    encode_utf8_decode_utf8(s@);
                                }
                                assert(decode_utf8(encode_utf8(cs)) == cs) by {
                                    encode_utf8_decode_utf8(cs);
                                }
                            }
                        }
                        Ok((s, p1 + len))
                    },
                    None => {
                        proof {
                            assert forall|cs: Seq<char>| !prefix_at(b@, pos as int, enc_str(cs))
                                by {
                                if prefix_at(b@, pos as int, enc_str(cs)) {
                                    assert(n == encode_utf8(cs).len() as u64);
                                    assert(piece == encode_utf8(cs));
                                    assert(valid_utf8(piece));
                                }
                            }
                        }
                        Err(CodecError::MalformedLayout)
                    },
                }
            } else {
                proof {
                    assert forall|cs: Seq<char>| !prefix_at(b@, pos as int, enc_str(cs)) by {
                        if prefix_at(b@, pos as int, enc_str(cs)) {
                            assert(encode_utf8(cs).len() < 0x1_0000_0000_0000_0000);
                            assert(n == encode_utf8(cs).len() as u64);
                            assert(p1 + encode_utf8(cs).len() <= b@.len());
                        }
                    }
                }
                Err(CodecError::MalformedLayout)
            }
        },
        None => {
            proof {
                assert forall|cs: Seq<char>| !prefix_at(b@, pos as int, enc_str(cs)) by {
                    if prefix_at(b@, pos as int, enc_str(cs)) {
                        assert(pos + 8 <= b@.len());
                    }
                }
            }
            Err(CodecError::MalformedLayout)
        },
    }
}

/// Reads `count` length-prefixed strings in a row.
fn read_strs(b: &Vec<u8>, pos0: usize, count: usize) -> (r: Result<(Vec<String>, usize), CodecError>)
    requires
        pos0 <= b@.len(),
    ensures
        r matches Ok(p) ==> pos0 <= p.1 <= b@.len() && p.0@.len() == count && b@.subrange(
            pos0 as int,
            p.1 as int,
        ) == enc_strs(p.0.deep_view()),
        forall|ss: Seq<Seq<char>>|
            ss.len() == count && prefix_at(b@, pos0 as int, enc_strs(ss)) ==> (r matches Ok(p)
                && p.0.deep_view() == ss && p.1 == pos0 + enc_strs(ss).len()),
        r matches Err(e) ==> e == CodecError::MalformedLayout,
{
    let mut out: Vec<String> = Vec::new();
    let mut pos: usize = pos0;
    proof {
        assert(out.deep_view() =~= Seq::<Seq<char>>::empty());
        assert(b@.subrange(pos0 as int, pos0 as int) =~= enc_strs(out.deep_view()));
        assert forall|ss: Seq<Seq<char>>|
            ss.len() == count && prefix_at(b@, pos0 as int, #[trigger] enc_strs(ss)) implies (
        out.deep_view() == ss.take(0) && pos0 == pos0 + enc_strs(ss.take(0)).len()) by {
            assert(ss.take(0) =~= Seq::<Seq<char>>::empty());
            assert(out.deep_view() =~= ss.take(0));
            assert(enc_strs(ss.take(0)).len() == 0);
        }
    }
    for i in 0..count
        invariant
            pos0 <= pos <= b@.len(),
            out@.len() == i,
            b@.subrange(pos0 as int, pos as int) == enc_strs(out.deep_view()),
            forall|ss: Seq<Seq<char>>|
                ss.len() == count && prefix_at(b@, pos0 as int, #[trigger] enc_strs(ss)) ==> (
                out.deep_view() == ss.take(i as int) && pos == pos0 + enc_strs(
                    ss.take(i as int),
                ).len()),
    {
        let ghost out0 = out.deep_view();
        let ghost pos_before = pos;
        let res = read_str(b, pos);
        proof {
            assert forall|ss: Seq<Seq<char>>|
                ss.len() == count && prefix_at(b@, pos0 as int, enc_strs(ss)) implies prefix_at(
                b@,
                pos_before as int,
                enc_str(ss[i as int]),
            ) by {
                lemma_enc_strs_split(ss, i as int);
                assert(ss.skip(i as int).first() == ss[i as int]);
                assert(ss.skip(i as int).drop_first() =~= ss.skip(i + 1));
                lemma_prefix_at_concat(
                    b@,
                    pos0 as int,
                    enc_strs(ss.take(i as int)),
                    enc_strs(ss.skip(i as int)),
                );
                assert(enc_strs(ss.skip(i as int)) == enc_str(ss[i as int]) + enc_strs(
                    ss.skip(i + 1),
                ));
                lemma_prefix_at_concat(
                    b@,
                    pos_before as int,
                    enc_str(ss[i as int]),
                    enc_strs(ss.skip(i + 1)),
                );
            }
        }
        match res {
            Ok((s, p)) => {
                proof {
                    lemma_enc_strs_snoc(out0, s@);
                    assert(b@.subrange(pos0 as int, p as int) =~= b@.subrange(
                        pos0 as int,
                        pos_before as int,
                    ) + b@.subrange(pos_before as int, p as int));
                }
                out.push(s);
                pos = p;
                proof {
                    assert(out.deep_view() =~= out0.push(s@));
                    assert(b@.subrange(pos0 as int, pos as int) == enc_strs(out.deep_view()));
                    assert forall|ss: Seq<Seq<char>>|
                        ss.len() == count && prefix_at(b@, pos0 as int, #[trigger] enc_strs(ss))
                        implies (out.deep_view() == ss.take(i + 1) && pos == pos0 + enc_strs(
                        ss.take(i + 1),
                    ).len()) by {
                        assert(prefix_at(b@, pos_before as int, enc_str(ss[i as int])));
                        assert(s@ == ss[i as int]);
                        assert(ss.take(i + 1) =~= ss.take(i as int).push(ss[i as int]));
                        lemma_enc_strs_snoc(ss.take(i as int), ss[i as int]);
                        assert(out.deep_view() =~= ss.take(i + 1));
                    }
                }
            },
            Err(e) => {
                proof {
                    assert forall|ss: Seq<Seq<char>>|
                        !(ss.len() == count && prefix_at(b@, pos0 as int, enc_strs(ss))) by {
                        if ss.len() == count && prefix_at(b@, pos0 as int, enc_strs(ss)) {
                            assert(prefix_at(b@, pos_before as int, enc_str(ss[i as int])));
                        }
                    }
                }
                return Err(e);
            },
        }
    }
    proof {
        assert forall|ss: Seq<Seq<char>>|
            ss.len() == count && prefix_at(b@, pos0 as int, #[trigger] enc_strs(ss)) implies (
        out.deep_view() == ss && pos == pos0 + enc_strs(ss).len()) by {
            assert(ss.take(count as int) =~= ss);
        }
    }
    Ok((out, pos))
}

/// Appends one length-prefixed string.
fn push_lp_str(out: &mut Vec<u8>, s: &str)
    ensures
        final(out)@ == old(out)@ + enc_str(s@),
{
    let mut bytes = s.as_bytes_vec();
    let mut lenb = u64_to_le_bytes(bytes.len() as u64);
    out.append(&mut lenb);
    out.append(&mut bytes);
    proof {
        assert(out@ =~= old(out)@ + enc_str(s@));
    }
}

/// Encodes a game into its structural (pre-compression) byte layout.
pub fn encode_struct(g: &PgnData) -> (r: Vec<u8>)
    ensures
        r@ == encode_spec(g@),
{
    let mut out: Vec<u8> = Vec::new();
    push_lp_str(&mut out, g.headers.event.as_str());
    push_lp_str(&mut out, g.headers.site.as_str());
    push_lp_str(&mut out, g.headers.date.as_str());
    push_lp_str(&mut out, g.headers.round.as_str());
    push_lp_str(&mut out, g.headers.white.as_str());
    push_lp_str(&mut out, g.headers.black.as_str());
    push_lp_str(&mut out, g.headers.result.as_str());
    proof {
        lemma_enc_strs_headers(g@.headers);
        assert(out@ =~= enc_strs(header_fields(g@.headers)));
    }
    let mut cntb = u64_to_le_bytes(g.moves.len() as u64);
    out.append(&mut cntb);
    let ghost base = out@;
    let n = g.moves.len();
    proof {
        assert(g@.moves.take(0) =~= Seq::<Seq<char>>::empty());
        assert(out@ =~= base + enc_strs(g@.moves.take(0)));
    }
    for i in 0..n
        invariant
            n == g.moves.len(),
            g@.moves.len() == n,
            out@ == base + enc_strs(g@.moves.take(i as int)),
            base == enc_strs(header_fields(g@.headers)) + spec_u64_to_le_bytes(
                g@.moves.len() as u64,
            ),
    {
        push_lp_str(&mut out, g.moves[i].0.as_str());
        proof {
            assert(g@.moves[i as int] == g.moves[i as int].0@);
            lemma_enc_strs_snoc(g@.moves.take(i as int), g@.moves[i as int]);
            assert(g@.moves.take(i + 1) =~= g@.moves.take(i as int).push(g@.moves[i as int]));
            assert(out@ =~= base + enc_strs(g@.moves.take(i + 1)));
        }
    }
    proof {
        assert(g@.moves.take(n as int) =~= g@.moves);
        assert(out@ =~= encode_spec(g@));
    }
    out
}

/// Decodes a structural byte layout back into a game, re-validating
/// every decoded move through the move-notation capability (a move
/// token exists only as that capability's output).  Succeeds exactly
/// on the exact encodings of well-formed games: every such game
/// decodes to an equal game, and whatever decodes successfully
/// re-encodes to the same bytes and has only canonical moves.
pub fn decode_struct(b: &Vec<u8>) -> (r: Result<PgnData, CodecError>)
    ensures
        r matches Ok(g) ==> b@ == encode_spec(g@) && moves_canonical(g@.moves),
        forall|gv: GameView|
            moves_canonical(gv.moves) && b@ == encode_spec(gv) ==> (r matches Ok(g) && g@ == gv),
        r == Err::<PgnData, CodecError>(CodecError::TrailingBytes) ==> (exists|gv: GameView, p: int|
            #![trigger encode_spec(gv), b@.subrange(0, p)]
            0 <= p < b@.len() && b@.subrange(0, p) == encode_spec(gv)),
        r matches Err(e) ==> e != CodecError::CorruptStream,
{
    let total = b.len();
    let hres = read_strs(b, 0, 7);
    proof {
        assert forall|gv: GameView| b@ == encode_spec(gv) implies prefix_at(
            b@,
            0,
            enc_strs(header_fields(gv.headers)),
        ) && header_fields(gv.headers).len() == 7 by {
            lemma_encode_parts(b@, gv);
        }
    }
    let (hs, pos1) = match hres {
        Ok(p) => p,
        Err(e) => {
            return Err(e);
        },
    };
    let cres = read_u64(b, pos1);
    proof {
        assert forall|gv: GameView| b@ == encode_spec(gv) implies prefix_at(
            b@,
            pos1 as int,
            spec_u64_to_le_bytes(gv.moves.len() as u64),
        ) by {
            lemma_encode_parts(b@, gv);
        }
    }
    let (n, pos2) = match cres {
        Some(p) => p,
        None => {
            return Err(CodecError::MalformedLayout);
        },
    };
    proof {
        lemma_auto_spec_u64_to_from_le_bytes();
        assert forall|gv: GameView| b@ == encode_spec(gv) implies gv.moves.len() < 0x1_0000_0000_0000_0000
            && n == gv.moves.len() && prefix_at(b@, pos2 as int, enc_strs(gv.moves)) && b@.len()
            == pos2 + enc_strs(gv.moves).len() by {
            lemma_encode_parts(b@, gv);
            lemma_enc_strs_len(gv.moves);
        }
    }
    if n > ((total - pos2) / 8) as u64 {
        proof {
            assert forall|gv: GameView| b@ != encode_spec(gv) by {
                if b@ == encode_spec(gv) {
                    lemma_enc_strs_len(gv.moves);
                }
            }
        }
        return Err(CodecError::MalformedLayout);
    }
    let count = n as usize;
    let mres = read_strs(b, pos2, count);
    let (ms, pos3) = match mres {
        Ok(p) => p,
        Err(e) => {
            proof {
                assert forall|gv: GameView| b@ != encode_spec(gv) by {
                    if b@ == encode_spec(gv) {
                        assert(gv.moves.len() == count);
                        assert(prefix_at(b@, pos2 as int, enc_strs(gv.moves)));
                    }
                }
            }
            return Err(e);
        },
    };
    if pos3 != total {
        proof {
            assert forall|gv: GameView| b@ != encode_spec(gv) by {
                if b@ == encode_spec(gv) {
                    assert(gv.moves.len() == count);
                    assert(pos3 == pos2 + enc_strs(gv.moves).len());
                }
            }
            // the consumed prefix is itself a complete encoding
            let hv = hs.deep_view();
            let gv0 = GameView {
                headers: HeadersView {
                    event: hv[0],
                    site: hv[1],
                    date: hv[2],
                    round: hv[3],
                    white: hv[4],
                    black: hv[5],
                    result: hv[6],
                },
                moves: ms.deep_view(),
            };
            assert(header_fields(gv0.headers) =~= hv);
            assert(gv0.moves.len() == count);
            assert(b@.subrange(pos1 as int, pos2 as int) == spec_u64_to_le_bytes(n)) by {
                assert(prefix_at(b@, pos1 as int, spec_u64_to_le_bytes(n)));
            }
            assert(b@.subrange(0, pos3 as int) =~= b@.subrange(0, pos1 as int) + b@.subrange(
                pos1 as int,
                pos2 as int,
            ) + b@.subrange(pos2 as int, pos3 as int));
            assert(b@.subrange(0, pos3 as int) == encode_spec(gv0));
        }
        return Err(CodecError::TrailingBytes);
    }
    let headers = PgnHeaders {
        event: hs[0].clone(),
        site: hs[1].clone(),
        date: hs[2].clone(),
        round: hs[3].clone(),
        white: hs[4].clone(),
        black: hs[5].clone(),
        result: hs[6].clone(),
    };
    let mut moves: Vec<SanPlusWrapper> = Vec::new();
    let mcount = ms.len();
    proof {
        assert(moves.deep_view() =~= ms.deep_view().take(0));
        assert forall|gv: GameView| b@ == #[trigger] encode_spec(gv) implies ms.deep_view()
            == gv.moves by {
            assert(gv.moves.len() == count);
            assert(prefix_at(b@, pos2 as int, enc_strs(gv.moves)));
        }
    }
    for i in 0..mcount
        invariant
            mcount == ms@.len(),
            moves.deep_view() == ms.deep_view().take(i as int),
            forall|j: int| 0 <= j < i ==> san_token(#[trigger] ms.deep_view()[j]),
            forall|gv: GameView| b@ == #[trigger] encode_spec(gv) ==> ms.deep_view() == gv.moves,
    {
        let ghost md0 = moves.deep_view();
        let ok = match SanPlusWrapper::from_str(ms[i].as_str()) {
            Some(w) => w.0 == ms[i],
            None => false,
        };
        if !ok {
            proof {
                assert forall|gv: GameView| !(moves_canonical(gv.moves) && b@ == encode_spec(gv))
                    by {
                    if moves_canonical(gv.moves) && b@ == encode_spec(gv) {
                        assert(ms.deep_view() == gv.moves);
                        assert(san_token(gv.moves[i as int]));
                        assert(ms.deep_view()[i as int] == ms@[i as int]@);
                    }
                }
            }
            return Err(CodecError::MalformedLayout);
        }
        moves.push(SanPlusWrapper(ms[i].clone()));
        proof {
            assert(san_token(ms.deep_view()[i as int]));
            assert(moves.deep_view() =~= md0.push(ms@[i as int]@));
            assert(ms.deep_view()[i as int] == ms@[i as int]@);
            assert(moves.deep_view() =~= ms.deep_view().take(i + 1));
        }
    }
    let g = PgnData { headers, moves };
    proof {
        assert(ms.deep_view().take(mcount as int) =~= ms.deep_view());
        assert(g@.moves =~= ms.deep_view());
        assert(moves_canonical(g@.moves));
        assert(header_fields(g@.headers) =~= hs.deep_view()) by {
            assert(hs.deep_view().len() == 7);
            assert(hs.deep_view()[0] == hs@[0]@);
            assert(hs.deep_view()[1] == hs@[1]@);
            assert(hs.deep_view()[2] == hs@[2]@);
            assert(hs.deep_view()[3] == hs@[3]@);
            assert(hs.deep_view()[4] == hs@[4]@);
            assert(hs.deep_view()[5] == hs@[5]@);
            assert(hs.deep_view()[6] == hs@[6]@);
        }
        assert(g@.moves.len() == count);
        assert(b@ =~= b@.subrange(0, pos1 as int) + b@.subrange(pos1 as int, pos2 as int)
            + b@.subrange(pos2 as int, pos3 as int));
        assert(b@.subrange(pos1 as int, pos2 as int) == spec_u64_to_le_bytes(n)) by {
            assert(prefix_at(b@, pos1 as int, spec_u64_to_le_bytes(n)));
        }
        assert(b@ == encode_spec(g@));
        assert forall|gv: GameView|
            moves_canonical(gv.moves) && b@ == encode_spec(gv) implies g@ =~= gv by {
            assert(hs.deep_view() == header_fields(gv.headers));
            assert(gv.headers =~= g@.headers) by {
                assert(header_fields(gv.headers)[0] == gv.headers.event);
                assert(header_fields(gv.headers)[1] == gv.headers.site);
                assert(header_fields(gv.headers)[2] == gv.headers.date);
                assert(header_fields(gv.headers)[3] == gv.headers.round);
                assert(header_fields(gv.headers)[4] == gv.headers.white);
                assert(header_fields(gv.headers)[5] == gv.headers.black);
                assert(header_fields(gv.headers)[6] == gv.headers.result);
            }
            assert(gv.moves =~= g@.moves);
        }
    }
    Ok(g)
}

/// The byte stream that the zlib compressor at its maximum compression
/// level produces for the given input; a function of the input alone.
pub uninterp spec fn deflate_of(b: Seq<u8>) -> Seq<u8>;

/// Relies on flate2's `write::ZlibEncoder` with `Compression::best()`:
/// a deterministic, content-agnostic compressor whose output depends on
/// the input bytes alone.  Writing into a `Vec` cannot fail.
#[verifier::external_body]
fn zlib_compress(data: &Vec<u8>) -> (r: Vec<u8>)
    ensures
        r@ == deflate_of(data@),
{
    let mut out = Vec::new();
    let mut encoder = flate2::write::ZlibEncoder::new(&mut out, flate2::Compression::best());
    std::io::Write::write_all(&mut encoder, data.as_slice()).expect("writing to a Vec cannot fail");
    encoder.finish().expect("writing to a Vec cannot fail");
    out
}

/// The bytes the zlib decompressor recovers from a compressed stream,
/// or `None` when the stream is corrupt or truncated; a function of
/// the stream alone.
pub uninterp spec fn inflate_of(b: Seq<u8>) -> Option<Seq<u8>>;

/// Relies on flate2's `read::ZlibDecoder`: decompression is a pure
/// function of the stream; decompressing exactly the compressor's
/// output for some input recovers that input; a corrupt or truncated
/// stream makes `read_to_end` err instead.
#[verifier::external_body]
fn zlib_decompress(data: &[u8]) -> (r: Option<Vec<u8>>)
    ensures
        r is Some <==> inflate_of(data@) is Some,
        r matches Some(v) ==> inflate_of(data@) == Some(v@),
        (exists|orig: Seq<u8>| data@ == #[trigger] deflate_of(orig)) ==> r is Some,
        r matches Some(v) ==> forall|orig: Seq<u8>| data@ == #[trigger] deflate_of(orig) ==> v@
            == orig,
{
    let mut out = Vec::new();
    let mut decoder = flate2::read::ZlibDecoder::new(data);
    match std::io::Read::read_to_end(&mut decoder, &mut out) {
        Ok(_) => Some(out),
        Err(_) => None,
    }
}

/// Compresses a game: the structural encoding passed through the zlib
/// compressor at its maximum compression level.
pub fn compress_pgn_data(pgn_data: &PgnData) -> (r: Vec<u8>)
    ensures
        r@ == deflate_of(encode_spec(pgn_data@)),
{
    let encoded = encode_struct(pgn_data);
    zlib_compress(&encoded)
}

/// Decompresses a game: reverses the compressor, then the structural
/// decoder.  Together with `compress_pgn_data` this gives the exact
/// binary round trip: decompressing the compression of any game yields
/// an equal game.  The error tells the three failures apart: a corrupt
/// stream exactly when the zlib decompressor fails, and otherwise the
/// structural decoder's own classification of the recovered bytes.
pub fn decompress_pgn_data(compressed_data: &[u8]) -> (r: Result<PgnData, CodecError>)
    ensures
        forall|gv: GameView|
            moves_canonical(gv.moves) && compressed_data@ == deflate_of(encode_spec(gv)) ==> (
            r matches Ok(g) && g@ == gv),
        r matches Ok(g) ==> inflate_of(compressed_data@) == Some(encode_spec(g@))
            && moves_canonical(g@.moves),
        r == Err::<PgnData, CodecError>(CodecError::CorruptStream) <==> inflate_of(
            compressed_data@,
        ) is None,
        r == Err::<PgnData, CodecError>(CodecError::TrailingBytes) ==> (exists|gv: GameView, p: int|
            #![trigger encode_spec(gv), inflate_of(compressed_data@)->0.subrange(0, p)]
            inflate_of(compressed_data@) is Some && 0 <= p < inflate_of(compressed_data@)->0.len()
                && inflate_of(compressed_data@)->0.subrange(0, p) == encode_spec(gv)),
{
    match zlib_decompress(compressed_data) {
        Some(bytes) => {
            let r = decode_struct(&bytes);
            proof {
                if r == Err::<PgnData, CodecError>(CodecError::TrailingBytes) {
                    let (gv, p) = choose|gv: GameView, p: int|
                        #![trigger encode_spec(gv), bytes@.subrange(0, p)]
                        0 <= p < bytes@.len() && bytes@.subrange(0, p) == encode_spec(gv);
                    assert(inflate_of(compressed_data@)->0 == bytes@);
                    assert(inflate_of(compressed_data@)->0.subrange(0, p) == encode_spec(gv));
                }
            }
            r
        },
        None => Err(CodecError::CorruptStream),
    }
}

/// Parses one PGN game text and compresses the game it holds: build
/// the game from the text, then encode and compress exactly it.
pub fn compress_pgn_str(pgn_str: &str) -> (r: Result<Vec<u8>, ParseError>)
    ensures
        r matches Ok(bytes) ==> (parse_outcome(pgn_str@) matches Ok(gv) && bytes@ == deflate_of(
            encode_spec(gv),
        )),
        r matches Err(e) ==> parse_outcome(pgn_str@) == Err::<GameView, ParseError>(e),
{
    let pgn_data = match PgnData::from_str(pgn_str) {
        Ok(g) => g,
        Err(e) => {
            return Err(e);
        },
    };
    let bytes = compress_pgn_data(&pgn_data);
    proof {
        assert(bytes@ == deflate_of(encode_spec(pgn_data@)));
    }
    Ok(bytes)
}

/// Decompresses a game and renders it back to its canonical text: the
/// compression of any game decompresses to exactly that game's
/// canonical reduced-export-format text, and whatever decompresses at
/// all is rendered from the game the recovered bytes encode.
pub fn decompress_pgn_str(compressed_data: &[u8]) -> (r: Result<String, CodecError>)
    ensures
        forall|gv: GameView|
            moves_canonical(gv.moves) && compressed_data@ == deflate_of(#[trigger] encode_spec(gv))
                ==> (r matches Ok(s) && s@ == format_spec(gv)),
        r matches Ok(s) ==> (exists|gv: GameView|
            inflate_of(compressed_data@) == Some(#[trigger] encode_spec(gv)) && s@ == format_spec(
                gv,
            )),
        r == Err::<String, CodecError>(CodecError::CorruptStream) <==> inflate_of(
            compressed_data@,
        ) is None,
{
    match decompress_pgn_data(compressed_data) {
        Ok(g) => Ok(g.to_string()),
        Err(e) => Err(e),
    }
}

} // verus!
