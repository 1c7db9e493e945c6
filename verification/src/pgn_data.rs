//! The canonical data model: a PGN game reduced to the seven mandatory
//! header fields and the bare move sequence.

use vstd::prelude::*;

verus! {

/// Mathematical model of a [`PgnHeaders`] value: the seven fields as
/// character sequences.
#[verifier::ext_equal]
pub ghost struct HeadersView {
    pub event: Seq<char>,
    pub site: Seq<char>,
    pub date: Seq<char>,
    pub round: Seq<char>,
    pub white: Seq<char>,
    pub black: Seq<char>,
    pub result: Seq<char>,
}

/// Mathematical model of a [`PgnData`] value: the headers together with
/// the move sequence, each move as its canonical character sequence.
#[verifier::ext_equal]
pub ghost struct GameView {
    pub headers: HeadersView,
    pub moves: Seq<Seq<char>>,
}

/// The model of a freshly created header set: all seven fields empty.
pub open spec fn empty_headers() -> HeadersView {
    HeadersView {
        event: Seq::<char>::empty(),
        site: Seq::<char>::empty(),
        date: Seq::<char>::empty(),
        round: Seq::<char>::empty(),
        white: Seq::<char>::empty(),
        black: Seq::<char>::empty(),
        result: Seq::<char>::empty(),
    }
}

/// The model of a freshly created game: empty headers, no moves.
pub open spec fn empty_game() -> GameView {
    GameView { headers: empty_headers(), moves: Seq::<Seq<char>>::empty() }
}

/// A header set is empty exactly when all seven fields are empty strings.
pub open spec fn headers_is_empty(h: HeadersView) -> bool {
    &&& h.event.len() == 0
    &&& h.site.len() == 0
    &&& h.date.len() == 0
    &&& h.round.len() == 0
    &&& h.white.len() == 0
    &&& h.black.len() == 0
    &&& h.result.len() == 0
}

/// A game is empty exactly when all seven header fields are empty strings
/// and the move sequence holds no move.
pub open spec fn game_is_empty(g: GameView) -> bool {
    headers_is_empty(g.headers) && g.moves.len() == 0
}

/// One ply in canonical standard algebraic notation, held as the string
/// that the external move-notation capability produced for it.  Two
/// tokens are the same move exactly when their strings are equal.
#[derive(Clone, Debug, Eq, Hash)]
pub struct SanPlusWrapper(pub String);

impl View for SanPlusWrapper {
    type V = Seq<char>;

    open spec fn view(&self) -> Seq<char> {
        self.0@
    }
}

impl DeepView for SanPlusWrapper {
    type V = Seq<char>;

    open spec fn deep_view(&self) -> Seq<char> {
        self.0@
    }
}

/// The canonical string form of the move that the external capability
/// parses out of `s`, or `None` when `s` is not a syntactically valid
/// move token.  The result depends on the characters of `s` alone.
pub uninterp spec fn san_canon_of(s: Seq<char>) -> Option<Seq<char>>;

/// A string that is the canonical form of a move: parsing and
/// re-rendering it gives it back unchanged.  This is the shape every
/// move token the capability produces has.
pub open spec fn san_token(s: Seq<char>) -> bool {
    san_canon_of(s) == Some(s)
}

/// Every move of the sequence is a canonical token of the capability:
/// the invariant of a well-formed game's move sequence.
pub open spec fn moves_canonical(moves: Seq<Seq<char>>) -> bool {
    forall|i: int| 0 <= i < moves.len() ==> san_token(#[trigger] moves[i])
}

impl SanPlusWrapper {
    /// Relies on `shakmaty::san::SanPlus::from_str` (re-exported by
    /// `pgn_reader`) to validate a move token, and on its `Display`
    /// impl to render the parsed move back canonically.  Both are pure
    /// functions of the token text; a rendered move never exceeds 9
    /// characters (the longest syntactically valid SAN is `Na1xa1=Q#`);
    /// and a rendered move parses back to the move it renders — the
    /// crate's own serde impls round-trip through exactly this pair —
    /// so canonical strings are fixed points of parse-then-render.
    #[verifier::external_body]
    pub fn from_str(s: &str) -> (r: Option<SanPlusWrapper>)
        ensures
            r matches Some(m) ==> san_canon_of(s@) == Some(m@) && m@.len() <= 9,
            r matches Some(m) ==> san_canon_of(m@) == Some(m@),
            r is Some <==> san_canon_of(s@) is Some,
    {
        match <pgn_reader::SanPlus as core::str::FromStr>::from_str(s) {
            Ok(san_plus) => Some(SanPlusWrapper(san_plus.to_string())),
            Err(_) => None,
        }
    }
}

impl PartialEq for SanPlusWrapper {
    /// Two tokens are the same move exactly when their canonical
    /// strings are equal.
    fn eq(&self, other: &SanPlusWrapper) -> (r: bool) {
        self.0 == other.0
    }
}

impl vstd::std_specs::cmp::PartialEqSpecImpl for SanPlusWrapper {
    open spec fn obeys_eq_spec() -> bool {
        true
    }

    open spec fn eq_spec(&self, other: &SanPlusWrapper) -> bool {
        self@ == other@
    }
}

/// The seven mandatory header fields of a game in reduced export format.
/// A header outside this set is unrepresentable.
#[derive(Clone, Debug, Eq, Hash)]
pub struct PgnHeaders {
    pub event: String,
    pub site: String,
    pub date: String,
    pub round: String,
    pub white: String,
    pub black: String,
    pub result: String,
}

impl View for PgnHeaders {
    type V = HeadersView;

    open spec fn view(&self) -> HeadersView {
        HeadersView {
            event: self.event@,
            site: self.site@,
            date: self.date@,
            round: self.round@,
            white: self.white@,
            black: self.black@,
            result: self.result@,
        }
    }
}

impl PgnHeaders {
    /// Creates a new header set with all seven fields empty.
    pub fn new() -> (r: PgnHeaders)
        ensures
            r@ == empty_headers(),
    {
        PgnHeaders {
            event: String::new(),
            site: String::new(),
            date: String::new(),
            round: String::new(),
            white: String::new(),
            black: String::new(),
            result: String::new(),
        }
    }

    /// True exactly when all seven fields are the empty string.
    pub fn is_empty(&self) -> (r: bool)
        ensures
            r == headers_is_empty(self@),
    {
        self.event.as_str().is_empty() && self.site.as_str().is_empty()
            && self.date.as_str().is_empty() && self.round.as_str().is_empty()
            && self.white.as_str().is_empty() && self.black.as_str().is_empty()
            && self.result.as_str().is_empty()
    }
}

impl Default for PgnHeaders {
    /// Creates a new header set with all seven fields empty.
    fn default() -> (r: PgnHeaders)
        ensures
            r@ == empty_headers(),
    {
        PgnHeaders::new()
    }
}

impl PartialEq for PgnHeaders {
    /// Header sets are equal exactly when they are equal field by field.
    fn eq(&self, other: &PgnHeaders) -> (r: bool) {
        let r = self.event == other.event && self.site == other.site && self.date == other.date
            && self.round == other.round && self.white == other.white && self.black == other.black
            && self.result == other.result;
        proof {
            if r {
                assert(self@ =~= other@);
            }
        }
        r
    }
}

impl vstd::std_specs::cmp::PartialEqSpecImpl for PgnHeaders {
    open spec fn obeys_eq_spec() -> bool {
        true
    }

    open spec fn eq_spec(&self, other: &PgnHeaders) -> bool {
        self@ == other@
    }
}

/// True exactly when the two move sequences hold the same moves in the
/// same order.
fn moves_eq(a: &Vec<SanPlusWrapper>, b: &Vec<SanPlusWrapper>) -> (r: bool)
    ensures
        r == (a.deep_view() == b.deep_view()),
{
    if a.len() != b.len() {
        proof {
            assert(a.deep_view().len() == a@.len());
            assert(b.deep_view().len() == b@.len());
        }
        return false;
    }
    let n = a.len();
    for i in 0..n
        invariant
            n == a@.len() == b@.len(),
            forall|j: int| 0 <= j < i ==> #[trigger] a.deep_view()[j] == b.deep_view()[j],
    {
        if !(a[i].0 == b[i].0) {
            proof {
                assert(a.deep_view()[i as int] != b.deep_view()[i as int]);
            }
            return false;
        }
    }
    proof {
        assert(a.deep_view() =~= b.deep_view());
    }
    true
}

/// A whole game in reduced export format: one header set and the ordered
/// move sequence, white's first move at index 0.
#[derive(Clone, Debug, Eq, Hash)]
pub struct PgnData {
    pub headers: PgnHeaders,
    pub moves: Vec<SanPlusWrapper>,
}

impl View for PgnData {
    type V = GameView;

    open spec fn view(&self) -> GameView {
        GameView { headers: self.headers@, moves: self.moves.deep_view() }
    }
}

impl PgnData {
    /// Creates a new empty game: empty headers, no moves.
    pub fn new() -> (r: PgnData)
        ensures
            r@ == empty_game(),
    {
        let r = PgnData { headers: PgnHeaders::new(), moves: Vec::new() };
        proof {
            assert(r@.moves =~= empty_game().moves);
        }
        r
    }

    /// Resets all seven header fields to the empty string and leaves the
    /// move sequence exactly as it was.
    pub fn clear_headers(&mut self)
        ensures
            final(self)@.headers == empty_headers(),
            final(self)@.moves == old(self)@.moves,
    {
        self.headers = PgnHeaders::new();
    }

    /// True exactly when all seven header fields are the empty string and
    /// the move sequence is empty.
    pub fn is_empty(&self) -> (r: bool)
        ensures
            r == game_is_empty(self@),
    {
        proof {
            assert(self.moves.deep_view().len() == self.moves@.len());
        }
        self.headers.is_empty() && self.moves.len() == 0
    }
}

impl Default for PgnData {
    /// Creates a new empty game.
    fn default() -> (r: PgnData)
        ensures
            r@ == empty_game(),
    {
        PgnData::new()
    }
}

impl PartialEq for PgnData {
    /// Games are equal exactly when their headers and their move
    /// sequences are equal (structural equality on the model).
    fn eq(&self, other: &PgnData) -> (r: bool) {
        let r = self.headers == other.headers && moves_eq(&self.moves, &other.moves);
        proof {
            if self@.headers == other@.headers && self@.moves == other@.moves {
                assert(self@ =~= other@);
            }
        }
        r
    }
}

impl vstd::std_specs::cmp::PartialEqSpecImpl for PgnData {
    open spec fn obeys_eq_spec() -> bool {
        true
    }

    open spec fn eq_spec(&self, other: &PgnData) -> bool {
        self@ == other@
    }
}

} // verus!
