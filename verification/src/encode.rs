use vstd::prelude::*;
use vstd::string::StringExecFns;

use crate::record::LogData;
use crate::value::DataValue;

verus! {

/// Decimal digit for one place value.
pub open spec fn digit_char(d: nat) -> char {
    if d == 0 {
        '0'
    } else if d == 1 {
        '1'
    } else if d == 2 {
        '2'
    } else if d == 3 {
        '3'
    } else if d == 4 {
        '4'
    } else if d == 5 {
        '5'
    } else if d == 6 {
        '6'
    } else if d == 7 {
        '7'
    } else if d == 8 {
        '8'
    } else {
        '9'
    }
}

/// Numeric value of a decimal digit character.
pub open spec fn digit_val(c: char) -> nat {
    if c == '0' {
        0
    } else if c == '1' {
        1
    } else if c == '2' {
        2
    } else if c == '3' {
        3
    } else if c == '4' {
        4
    } else if c == '5' {
        5
    } else if c == '6' {
        6
    } else if c == '7' {
        7
    } else if c == '8' {
        8
    } else {
        9
    }
}

/// Decimal rendering of a natural number, most significant digit first,
/// no leading zeros (a single `0` for zero).
pub open spec fn dec_nat(n: nat) -> Seq<char>
    decreases n,
{
    if n < 10 {
        seq![digit_char(n)]
    } else {
        dec_nat(n / 10) + seq![digit_char(n % 10)]
    }
}

/// Decimal rendering of an integer: a leading minus sign for negatives.
pub open spec fn dec_int(n: int) -> Seq<char> {
    if n >= 0 {
        dec_nat(n as nat)
    } else {
        seq!['-'] + dec_nat((-n) as nat)
    }
}

/// Numeric value read back from a digit string, most significant first.
pub open spec fn dec_val(s: Seq<char>) -> nat
    decreases s,
{
    if s.len() == 0 {
        0
    } else {
        dec_val(s.drop_last()) * 10 + digit_val(s.last())
    }
}

/// Integer value read back from a decimal token with an optional sign.
pub open spec fn dec_int_val(s: Seq<char>) -> int {
    if s.len() > 0 && s[0] == '-' {
        -(dec_val(s.subrange(1, s.len() as int)) as int)
    } else {
        dec_val(s) as int
    }
}

fn digit_str(d: u64) -> (r: &'static str)
    requires
        d < 10,
    ensures
        r@ == seq![digit_char(d as nat)],
{
    proof {
        reveal_strlit("0");
        reveal_strlit("1");
        reveal_strlit("2");
        reveal_strlit("3");
        reveal_strlit("4");
        reveal_strlit("5");
        reveal_strlit("6");
        reveal_strlit("7");
        reveal_strlit("8");
        reveal_strlit("9");
    }
    let r = if d == 0 {
        "0"
    } else if d == 1 {
        "1"
    } else if d == 2 {
        "2"
    } else if d == 3 {
        "3"
    } else if d == 4 {
        "4"
    } else if d == 5 {
        "5"
    } else if d == 6 {
        "6"
    } else if d == 7 {
        "7"
    } else if d == 8 {
        "8"
    } else {
        "9"
    };
    proof {
        assert(r@ =~= seq![digit_char(d as nat)]);
    }
    r
}

/// Unsigned decimal token; the whole 64-bit range renders exactly.
pub fn fmt_u64(n: u64) -> (r: String)
    ensures
        r@ == dec_nat(n as nat),
    decreases n,
{
    if n < 10 {
        String::from_str(digit_str(n))
    } else {
        let mut s = fmt_u64(n / 10);
        s.append(digit_str(n % 10));
        s
    }
}

/// Signed decimal token; the whole 64-bit range renders exactly,
/// negative values with a leading minus sign.
pub fn fmt_i64(n: i64) -> (r: String)
    ensures
        r@ == dec_int(n as int),
{
    if n >= 0 {
        fmt_u64(n as u64)
    } else {
        let m: u64 = (-(n as i128)) as u64;
        let mut s = String::from_str("-");
        let digits = fmt_u64(m);
        s.append(digits.as_str());
        proof {
            reveal_strlit("-");
            assert("-"@ =~= seq!['-']);
        }
        s
    }
}

/// Rendering `dec_nat` and reading the token back is the identity, so
/// unsigned integer tokens round-trip exactly over the full 64-bit range.
pub proof fn lemma_dec_nat_round_trip(n: nat)
    ensures
        dec_val(dec_nat(n)) == n,
    decreases n,
{
    if n < 10 {
        assert(dec_nat(n) == seq![digit_char(n)]);
        assert(dec_nat(n).len() == 1);
        assert(dec_nat(n).drop_last() =~= Seq::<char>::empty());
        assert(dec_val(Seq::<char>::empty()) == 0);
        assert(dec_val(dec_nat(n)) == dec_val(dec_nat(n).drop_last()) * 10 + digit_val(
            dec_nat(n).last(),
        ));
        assert(dec_nat(n).last() == digit_char(n));
        assert(digit_val(digit_char(n)) == n);
    } else {
        lemma_dec_nat_round_trip(n / 10);
        assert(dec_nat(n).len() > 0);
        assert(dec_val(dec_nat(n)) == dec_val(dec_nat(n).drop_last()) * 10 + digit_val(
            dec_nat(n).last(),
        ));
        assert(dec_nat(n).drop_last() =~= dec_nat(n / 10));
        assert(dec_nat(n).last() == digit_char(n % 10));
        assert(digit_val(digit_char(n % 10)) == n % 10);
        assert((n / 10) * 10 + n % 10 == n) by (nonlinear_arith);
    }
}

/// A decimal rendering is never empty and never starts with a sign.
pub proof fn lemma_dec_nat_first(n: nat)
    ensures
        dec_nat(n).len() > 0,
        dec_nat(n)[0] != '-',
    decreases n,
{
    if n >= 10 {
        lemma_dec_nat_first(n / 10);
    }
}

/// Rendering `dec_int` and reading the token back is the identity, so
/// signed integer tokens round-trip exactly, negative values included.
pub proof fn lemma_dec_int_round_trip(n: int)
    ensures
        dec_int_val(dec_int(n)) == n,
{
    if n >= 0 {
        lemma_dec_nat_first(n as nat);
        lemma_dec_nat_round_trip(n as nat);
    } else {
        lemma_dec_nat_round_trip((-n) as nat);
        assert(dec_int(n)[0] == '-');
        assert(dec_int(n).subrange(1, dec_int(n).len() as int) =~= dec_nat((-n) as nat));
    }
}

/// A finite IEEE-754 double has at least one zero bit in its exponent
/// field.
pub open spec fn spec_finite_bits(bits: u64) -> bool {
    (bits >> 52) & 0x7ff != 0x7ff
}

/// Whether a 64-bit pattern encodes a finite IEEE-754 double (neither an
/// infinity nor a NaN: the exponent field is not all ones).
pub fn finite_bits(bits: u64) -> (r: bool)
    ensures
        r == spec_finite_bits(bits),
{
    (bits >> 52) & 0x7ff != 0x7ff
}

/// Every double in the tree is finite; only then can the reference
/// interchange format represent the whole value.
pub open spec fn all_finite(v: DataValue) -> bool
    decreases v,
{
    match v {
        DataValue::Float(bits) => spec_finite_bits(bits),
        DataValue::List(l) => all_finite_seq(l@),
        DataValue::Dict(d) => all_finite_pairs(d@),
        _ => true,
    }
}

pub open spec fn all_finite_seq(s: Seq<DataValue>) -> bool
    decreases s,
{
    s.len() == 0 || (all_finite_seq(s.drop_last()) && all_finite(s.last()))
}

pub open spec fn all_finite_pairs(s: Seq<(String, DataValue)>) -> bool
    decreases s,
{
    s.len() == 0 || (all_finite_pairs(s.drop_last()) && all_finite(s.last().1))
}

proof fn lemma_all_finite_seq_iff(s: Seq<DataValue>)
    ensures
        all_finite_seq(s) <==> (forall|i: int| 0 <= i < s.len() ==> all_finite(#[trigger] s[i])),
    decreases s.len(),
{
    if s.len() > 0 {
        lemma_all_finite_seq_iff(s.drop_last());
        assert forall|i: int| 0 <= i < s.len() - 1 implies s.drop_last()[i] == s[i] by {}
        assert(s.last() == s[s.len() - 1]);
    }
}

proof fn lemma_all_finite_pairs_iff(s: Seq<(String, DataValue)>)
    ensures
        all_finite_pairs(s) <==> (forall|i: int|
            0 <= i < s.len() ==> all_finite(#[trigger] s[i].1)),
    decreases s.len(),
{
    if s.len() > 0 {
        lemma_all_finite_pairs_iff(s.drop_last());
        assert forall|i: int| 0 <= i < s.len() - 1 implies s.drop_last()[i] == s[i] by {}
        assert(s.last() == s[s.len() - 1]);
    }
}

/// The encoder's failure: the target format cannot represent a produced
/// primitive.  Such a value is reported, never silently coerced.
#[derive(Debug, PartialEq, Eq, Structural)]
pub enum EncodingError {
    /// A double in the value was an infinity or a NaN, which the
    /// reference interchange format has no token for.
    NonFiniteFloat,
}

/// One token of the encoded payload.  Every token is final text except a
/// double, which stays as its bit pattern for the caller to render with
/// the format's own floating-point primitive.
#[derive(Debug)]
pub enum JsonPiece {
    Text(String),
    Float(u64),
}

/// Model of one token.
pub enum JsonPieceModel {
    Text(Seq<char>),
    Float(u64),
}

impl View for JsonPiece {
    type V = JsonPieceModel;

    open spec fn view(&self) -> JsonPieceModel {
        match self {
            JsonPiece::Text(s) => JsonPieceModel::Text(s@),
            JsonPiece::Float(bits) => JsonPieceModel::Float(*bits),
        }
    }
}

pub open spec fn pieces_view(s: Seq<JsonPiece>) -> Seq<JsonPieceModel> {
    s.map_values(|p: JsonPiece| p@)
}

pub open spec fn text_piece(s: Seq<char>) -> Seq<JsonPieceModel> {
    seq![JsonPieceModel::Text(s)]
}

/// String token (quotes and escaping included) that the interchange
/// format produces for the given text.
pub uninterp spec fn string_token_of(s: Seq<char>) -> Seq<char>;

/// Relies on serde_json::to_string on borrowed text: the token it yields
/// (quoted, JSON-escaped) depends on the characters alone, and
/// serializing borrowed text into a string buffer cannot fail.
#[verifier::external_body]
fn json_string_token(s: &str) -> (r: String)
    ensures
        r@ == string_token_of(s@),
{
    match serde_json::to_string(s) {
        Ok(t) => t,
        Err(_) => String::new(),
    }
}

/// Token sequence for one value: scalars are single tokens, a list is its
/// elements' tokens between bracket tokens, a dictionary is quoted-key,
/// colon and value tokens between brace tokens, comma tokens in between.
pub open spec fn val_pieces(v: DataValue) -> Seq<JsonPieceModel>
    decreases v,
{
    match v {
        DataValue::Bool(b) => text_piece(
            if b {
                "true"@
            } else {
                "false"@
            },
        ),
        DataValue::Int(n) => text_piece(dec_nat(n as nat)),
        DataValue::SignedInt(n) => text_piece(dec_int(n as int)),
        DataValue::Float(bits) => seq![JsonPieceModel::Float(bits)],
        DataValue::String(s) => text_piece(string_token_of(s@)),
        DataValue::List(l) => text_piece("["@) + list_pieces(l@) + text_piece("]"@),
        DataValue::Dict(d) => text_piece("{"@) + entries_pieces(d@) + text_piece("}"@),
    }
}

pub open spec fn list_pieces(s: Seq<DataValue>) -> Seq<JsonPieceModel>
    decreases s,
{
    if s.len() == 0 {
        Seq::empty()
    } else if s.len() == 1 {
        val_pieces(s[0])
    } else {
        list_pieces(s.drop_last()) + text_piece(","@) + val_pieces(s.last())
    }
}

pub open spec fn entry_pieces(e: (String, DataValue)) -> Seq<JsonPieceModel>
    decreases e,
{
    text_piece(string_token_of(e.0@)) + text_piece(":"@) + val_pieces(e.1)
}

pub open spec fn entries_pieces(s: Seq<(String, DataValue)>) -> Seq<JsonPieceModel>
    decreases s,
{
    if s.len() == 0 {
        Seq::empty()
    } else if s.len() == 1 {
        entry_pieces(s[0])
    } else {
        entries_pieces(s.drop_last()) + text_piece(","@) + entry_pieces(s.last())
    }
}

/// Token sequence for a whole record: its entries between brace tokens.
pub open spec fn record_pieces(r: LogData) -> Seq<JsonPieceModel> {
    text_piece("{"@) + entries_pieces(r.entries()) + text_piece("}"@)
}

fn push_piece(out: &mut Vec<JsonPiece>, p: JsonPiece)
    ensures
        pieces_view(final(out)@) == pieces_view(old(out)@).push(p@),
{
    let ghost pm = p@;
    out.push(p);
    proof {
        assert(pieces_view(out@) =~= pieces_view(old(out)@).push(pm));
    }
}

proof fn lemma_list_pieces_step(s: Seq<DataValue>, i: int)
    requires
        0 <= i < s.len(),
    ensures
        list_pieces(s.take(i + 1)) == if i == 0 {
            val_pieces(s[0])
        } else {
            list_pieces(s.take(i)) + text_piece(","@) + val_pieces(s[i])
        },
{
    let t = s.take(i + 1);
    assert(t.len() == i + 1);
    if i == 0 {
        assert(t[0] == s[0]);
    } else {
        assert(t.drop_last() =~= s.take(i));
        assert(t.last() == s[i]);
    }
}

proof fn lemma_entries_pieces_step(s: Seq<(String, DataValue)>, i: int)
    requires
        0 <= i < s.len(),
    ensures
        entries_pieces(s.take(i + 1)) == if i == 0 {
            entry_pieces(s[0])
        } else {
            entries_pieces(s.take(i)) + text_piece(","@) + entry_pieces(s[i])
        },
{
    let t = s.take(i + 1);
    assert(t.len() == i + 1);
    if i == 0 {
        assert(t[0] == s[0]);
    } else {
        assert(t.drop_last() =~= s.take(i));
        assert(t.last() == s[i]);
    }
}

#[verifier::loop_isolation(false)]
#[verifier::rlimit(60)]
fn encode_into(v: &DataValue, out: &mut Vec<JsonPiece>) -> (r: Result<(), EncodingError>)
    ensures
        r is Ok ==> pieces_view(final(out)@) == pieces_view(old(out)@) + val_pieces(*v)
            && all_finite(*v),
        all_finite(*v) ==> r is Ok,
        r matches Err(e) ==> e == EncodingError::NonFiniteFloat && !all_finite(*v),
    decreases v,
{
    match v {
        DataValue::Bool(b) => {
            let t = if *b {
                String::from_str("true")
            } else {
                String::from_str("false")
            };
            push_piece(out, JsonPiece::Text(t));
            proof {
                assert(pieces_view(out@) =~= pieces_view(old(out)@) + val_pieces(*v));
            }
            Ok(())
        },
        DataValue::Int(n) => {
            push_piece(out, JsonPiece::Text(fmt_u64(*n)));
            proof {
                assert(pieces_view(out@) =~= pieces_view(old(out)@) + val_pieces(*v));
            }
            Ok(())
        },
        DataValue::SignedInt(n) => {
            push_piece(out, JsonPiece::Text(fmt_i64(*n)));
            proof {
                assert(pieces_view(out@) =~= pieces_view(old(out)@) + val_pieces(*v));
            }
            Ok(())
        },
        DataValue::Float(bits) => {
            if finite_bits(*bits) {
                push_piece(out, JsonPiece::Float(*bits));
                proof {
                    assert(pieces_view(out@) =~= pieces_view(old(out)@) + val_pieces(*v));
                }
                Ok(())
            } else {
                Err(EncodingError::NonFiniteFloat)
            }
        },
        DataValue::String(s) => {
            push_piece(out, JsonPiece::Text(json_string_token(s.as_str())));
            proof {
                assert(pieces_view(out@) =~= pieces_view(old(out)@) + val_pieces(*v));
            }
            Ok(())
        },
        DataValue::List(l) => {
            push_piece(out, JsonPiece::Text(String::from_str("[")));
            let mut i: usize = 0;
            while i < l.len()
                invariant
                    0 <= i <= l@.len(),
                    pieces_view(out@) == pieces_view(old(out)@) + text_piece("["@) + list_pieces(
                        l@.take(i as int),
                    ),
                    forall|j: int| 0 <= j < i ==> all_finite(#[trigger] l@[j]),
                decreases l@.len() - i,
            {
                if i > 0 {
                    push_piece(out, JsonPiece::Text(String::from_str(",")));
                }
                match encode_into(&l[i], out) {
                    Err(e) => {
                        proof {
                            lemma_all_finite_seq_iff(l@);
                        }
                        return Err(e);
                    },
                    Ok(_) => {},
                }
                proof {
                    lemma_list_pieces_step(l@, i as int);
                    assert(pieces_view(out@) =~= pieces_view(old(out)@) + text_piece("["@)
                        + list_pieces(l@.take(i + 1)));
                }
                i = i + 1;
            }
            push_piece(out, JsonPiece::Text(String::from_str("]")));
            proof {
                lemma_all_finite_seq_iff(l@);
                assert(l@.take(l@.len() as int) =~= l@);
                assert(list_pieces(l@.take(l@.len() as int)) == list_pieces(l@));
                assert(val_pieces(*v) == text_piece("["@) + list_pieces(l@) + text_piece("]"@));
                assert(pieces_view(out@) =~= pieces_view(old(out)@) + val_pieces(*v));
            }
            Ok(())
        },
        DataValue::Dict(d) => {
            push_piece(out, JsonPiece::Text(String::from_str("{")));
            match encode_entries(d, out) {
                Err(e) => Err(e),
                Ok(_) => {
                    push_piece(out, JsonPiece::Text(String::from_str("}")));
                    proof {
                        assert(val_pieces(*v) == text_piece("{"@) + entries_pieces(d@)
                            + text_piece("}"@));
                        assert(pieces_view(out@) =~= pieces_view(old(out)@) + val_pieces(*v));
                    }
                    Ok(())
                },
            }
        },
    }
}

#[verifier::loop_isolation(false)]
#[verifier::rlimit(60)]
fn encode_entries(d: &Vec<(String, DataValue)>, out: &mut Vec<JsonPiece>) -> (r: Result<
    (),
    EncodingError,
>)
    ensures
        r is Ok ==> pieces_view(final(out)@) == pieces_view(old(out)@) + entries_pieces(d@)
            && all_finite_pairs(d@),
        all_finite_pairs(d@) ==> r is Ok,
        r matches Err(e) ==> e == EncodingError::NonFiniteFloat && !all_finite_pairs(d@),
    decreases d,
{
    let mut i: usize = 0;
    while i < d.len()
        invariant
            0 <= i <= d@.len(),
            pieces_view(out@) == pieces_view(old(out)@) + entries_pieces(d@.take(i as int)),
            forall|j: int| 0 <= j < i ==> all_finite(#[trigger] d@[j].1),
        decreases d@.len() - i,
    {
        if i > 0 {
            push_piece(out, JsonPiece::Text(String::from_str(",")));
        }
        push_piece(out, JsonPiece::Text(json_string_token(d[i].0.as_str())));
        push_piece(out, JsonPiece::Text(String::from_str(":")));
        match encode_into(&d[i].1, out) {
            Err(e) => {
                proof {
                    lemma_all_finite_pairs_iff(d@);
                }
                return Err(e);
            },
            Ok(_) => {},
        }
        proof {
            lemma_entries_pieces_step(d@, i as int);
            assert(entry_pieces(d@[i as int]) == text_piece(string_token_of(d@[i as int].0@))
                + text_piece(":"@) + val_pieces(d@[i as int].1));
            assert(pieces_view(out@) =~= pieces_view(old(out)@) + entries_pieces(
                d@.take(i + 1),
            ));
        }
        i = i + 1;
    }
    proof {
        lemma_all_finite_pairs_iff(d@);
        assert(d@.take(d@.len() as int) =~= d@);
    }
    Ok(())
}

impl DataValue {
    /// Encodes one value into the token sequence of the interchange
    /// payload.  Succeeds exactly when every double in the value is
    /// finite; a non-finite double is rejected, never coerced.
    pub fn encode_pieces(&self) -> (r: Result<Vec<JsonPiece>, EncodingError>)
        ensures
            r matches Ok(ps) ==> pieces_view(ps@) == val_pieces(*self) && all_finite(*self),
            all_finite(*self) ==> r is Ok,
            r matches Err(e) ==> e == EncodingError::NonFiniteFloat && !all_finite(*self),
    {
        let mut out: Vec<JsonPiece> = Vec::new();
        match encode_into(self, &mut out) {
            Ok(_) => {
                proof {
                    assert(pieces_view(out@) =~= val_pieces(*self));
                }
                Ok(out)
            },
            Err(e) => Err(e),
        }
    }
}

impl LogData {
    /// Encodes a whole record into the token sequence of the interchange
    /// payload: its entries between brace tokens.  Succeeds exactly when
    /// every double in the record is finite.
    pub fn encode_pieces(&self) -> (r: Result<Vec<JsonPiece>, EncodingError>)
        ensures
            r matches Ok(ps) ==> pieces_view(ps@) == record_pieces(*self) && all_finite_pairs(
                self.entries(),
            ),
            all_finite_pairs(self.entries()) ==> r is Ok,
            r matches Err(e) ==> e == EncodingError::NonFiniteFloat && !all_finite_pairs(
                self.entries(),
            ),
    {
        let mut out: Vec<JsonPiece> = Vec::new();
        proof {
            assert(pieces_view(out@) =~= Seq::<JsonPieceModel>::empty());
        }
        push_piece(&mut out, JsonPiece::Text(String::from_str("{")));
        proof {
            assert(pieces_view(out@) =~= text_piece("{"@));
        }
        match encode_entries(self.pairs(), &mut out) {
            Err(e) => Err(e),
            Ok(_) => {
                push_piece(&mut out, JsonPiece::Text(String::from_str("}")));
                proof {
                    assert(record_pieces(*self) == text_piece("{"@) + entries_pieces(
                        self.entries(),
                    ) + text_piece("}"@));
                    assert(pieces_view(out@) =~= record_pieces(*self));
                }
                Ok(out)
            },
        }
    }
}

/// Whether every token is final text (no double waits to be rendered).
pub open spec fn texts_only(s: Seq<JsonPieceModel>) -> bool {
    forall|i: int| 0 <= i < s.len() ==> s[i] is Text
}

/// Concatenation of the text tokens.
pub open spec fn join_texts(s: Seq<JsonPieceModel>) -> Seq<char>
    decreases s,
{
    if s.len() == 0 {
        Seq::empty()
    } else {
        join_texts(s.drop_last()) + (match s.last() {
            JsonPieceModel::Text(t) => t,
            JsonPieceModel::Float(_) => Seq::empty(),
        })
    }
}

/// Joins a token sequence into the final payload text, when no token is
/// a pending double; with a double present the caller must render the
/// bits with the format's own floating-point primitive first.
#[verifier::loop_isolation(false)]
pub fn join_pieces(pieces: &Vec<JsonPiece>) -> (r: Option<String>)
    ensures
        r matches Some(s) ==> texts_only(pieces_view(pieces@)) && s@ == join_texts(
            pieces_view(pieces@),
        ),
        texts_only(pieces_view(pieces@)) ==> r is Some,
        r is None ==> !texts_only(pieces_view(pieces@)),
{
    let mut s = String::new();
    let mut i: usize = 0;
    while i < pieces.len()
        invariant
            0 <= i <= pieces@.len(),
            forall|j: int| 0 <= j < i ==> pieces_view(pieces@)[j] is Text,
            s@ == join_texts(pieces_view(pieces@).take(i as int)),
        decreases pieces@.len() - i,
    {
        match &pieces[i] {
            JsonPiece::Text(t) => {
                s.append(t.as_str());
            },
            JsonPiece::Float(_) => {
                proof {
                    assert(pieces_view(pieces@)[i as int] is Float);
                }
                return None;
            },
        }
        proof {
            let pv = pieces_view(pieces@);
            assert(pv.take(i + 1).drop_last() =~= pv.take(i as int));
            assert(pv.take(i + 1).last() == pv[i as int]);
        }
        i = i + 1;
    }
    proof {
        assert(pieces_view(pieces@).take(pieces@.len() as int) =~= pieces_view(pieces@));
    }
    Some(s)
}

proof fn lemma_join_two_texts(a: Seq<char>, b: Seq<char>)
    ensures
        join_texts(seq![JsonPieceModel::Text(a), JsonPieceModel::Text(b)]) == a + b,
{
    let two = seq![JsonPieceModel::Text(a), JsonPieceModel::Text(b)];
    let one = seq![JsonPieceModel::Text(a)];
    assert(two.drop_last() =~= one);
    assert(two.last() == JsonPieceModel::Text(b));
    assert(one.drop_last() =~= Seq::<JsonPieceModel>::empty());
    assert(one.last() == JsonPieceModel::Text(a));
    assert(join_texts(Seq::<JsonPieceModel>::empty()) == Seq::<char>::empty());
    assert(join_texts(one) == join_texts(Seq::<JsonPieceModel>::empty()) + a);
    assert(join_texts(one) =~= a);
    assert(join_texts(two) == join_texts(one) + b);
}

/// Boundary law: an empty list encodes to exactly the empty-array text,
/// an empty dictionary and an empty record to exactly the empty-object
/// text; none is omitted or rendered as a null token.
pub proof fn lemma_empty_composites_encode(l: Vec<DataValue>, d: Vec<(String, DataValue)>, r: LogData)
    requires
        l@.len() == 0,
        d@.len() == 0,
        r.entries().len() == 0,
    ensures
        join_texts(val_pieces(DataValue::List(l))) == "[]"@,
        join_texts(val_pieces(DataValue::Dict(d))) == "{}"@,
        join_texts(record_pieces(r)) == "{}"@,
{
    reveal_strlit("[");
    reveal_strlit("]");
    reveal_strlit("[]");
    reveal_strlit("{");
    reveal_strlit("}");
    reveal_strlit("{}");
    lemma_join_two_texts("["@, "]"@);
    lemma_join_two_texts("{"@, "}"@);
    assert("["@ + "]"@ =~= "[]"@);
    assert("{"@ + "}"@ =~= "{}"@);
    let lp = val_pieces(DataValue::List(l));
    assert(lp =~= seq![
        JsonPieceModel::Text("["@),
        JsonPieceModel::Text("]"@),
    ]);
    let dp = val_pieces(DataValue::Dict(d));
    assert(dp =~= seq![
        JsonPieceModel::Text("{"@),
        JsonPieceModel::Text("}"@),
    ]);
    let rp = record_pieces(r);
    assert(rp =~= dp);
}

} // verus!
