//! Bencode: the binary serialization format used by BitTorrent metadata.
//!
//! This module holds the byte-level grammar (a specification-level parser over
//! byte sequences), a verified decoder for torrent metadata, the canonical
//! re-encoder for the info dictionary, and the info hasher.

use vstd::prelude::*;
use vstd::string::StringExecFns;

verus! {

/// Which required key of a bencoded torrent document an error refers to.
#[derive(Debug, Clone, Copy, PartialEq, Eq, Structural)]
pub enum Field {
    Announce,
    Info,
    Pieces,
    PieceLength,
    Length,
    Name,
}

/// Why decoding a bencoded document failed.
#[derive(Debug, Clone, PartialEq, Eq, Structural)]
pub enum DecodeError {
    /// The input ended in the middle of a value.
    UnexpectedEof,
    /// A byte-string length prefix is not a valid decimal, is not followed by
    /// a colon, or exceeds the remaining buffer.
    InvalidLength,
    /// An integer token has non-digit characters, a leading zero other than
    /// the literal `0`, a bare or negative zero sign, or does not fit in a
    /// signed 64-bit integer.
    InvalidInteger,
    /// A dictionary key token is not a byte string.
    InvalidDictionaryKey,
    /// A value starts with a byte that opens no bencode value.
    UnexpectedToken,
    /// A required key is absent from a dictionary.
    MissingField(Field),
    /// A required key holds a value of the wrong shape or range.
    InvalidField(Field),
    /// A text field is not valid UTF-8.
    InvalidUtf8,
}

/// Is `b` an ASCII decimal digit?
pub open spec fn is_digit(b: u8) -> bool {
    48 <= b && b <= 57
}

/// The number in decimal notation, most significant digit first, as ASCII bytes.
pub open spec fn dec_bytes(n: int) -> Seq<u8>
    recommends
        n >= 0,
    decreases n,
{
    if n <= 9 {
        seq![(48 + if n >= 0 { n } else { 0 }) as u8]
    } else {
        dec_bytes(n / 10) + seq![(48 + n % 10) as u8]
    }
}

/// The numeric value of a sequence of ASCII decimal digits.
pub open spec fn dec_value(s: Seq<u8>) -> int
    decreases s.len(),
{
    if s.len() == 0 {
        0
    } else {
        dec_value(s.drop_last()) * 10 + (s.last() - 48)
    }
}

/// Appends the decimal notation of `n` to `buf`.
pub fn push_decimal(buf: &mut Vec<u8>, n: u64)
    ensures
        final(buf)@ == old(buf)@ + dec_bytes(n as int),
    decreases n,
{
    if n <= 9 {
        buf.push(48 + n as u8);
    } else {
        push_decimal(buf, n / 10);
        buf.push(48 + (n % 10) as u8);
    }
}

/// A decoded bencode value: the mathematical model of the grammar.
pub enum BValue {
    Int(int),
    Bytes(Seq<u8>),
    List(Seq<BValue>),
    Dict(Seq<(Seq<u8>, BValue)>),
}

/// How many leading bytes of `s` are ASCII digits.
pub open spec fn count_digits(s: Seq<u8>) -> int
    decreases s.len(),
{
    if s.len() == 0 || !is_digit(s[0]) {
        0
    } else {
        1 + count_digits(s.skip(1))
    }
}

/// How many leading bytes of `s` differ from `stop` (equals `s.len()` when
/// `stop` does not occur).
pub open spec fn count_until(s: Seq<u8>, stop: u8) -> int
    decreases s.len(),
{
    if s.len() == 0 || s[0] == stop {
        0
    } else {
        1 + count_until(s.skip(1), stop)
    }
}

pub open spec fn all_digits(s: Seq<u8>) -> bool {
    forall|i: int| 0 <= i < s.len() ==> is_digit(#[trigger] s[i])
}

/// Is `b` a well-formed integer token body: digits with an optional leading
/// minus sign, no leading zero other than the literal `0`, and no `-0`?
pub open spec fn valid_int_body(b: Seq<u8>) -> bool {
    if b.len() == 0 {
        false
    } else if b[0] == 45 {
        b.len() >= 2 && all_digits(b.skip(1)) && b[1] != 48
    } else {
        all_digits(b) && (b.len() > 1 ==> b[0] != 48)
    }
}

/// The signed value of a well-formed integer token body.
pub open spec fn int_body_value(b: Seq<u8>) -> int {
    if b.len() > 0 && b[0] == 45 {
        -dec_value(b.skip(1))
    } else {
        dec_value(b)
    }
}

pub open spec fn fits_i64(n: int) -> bool {
    i64::MIN <= n <= i64::MAX
}

/// Parses a byte-string token `<len>:<raw bytes>` at the start of `s`,
/// returning the payload and the number of bytes consumed.
pub open spec fn parse_bstring(s: Seq<u8>) -> Result<(Seq<u8>, int), DecodeError> {
    let k = count_digits(s);
    if k == 0 {
        Err(DecodeError::InvalidLength)
    } else if k == s.len() {
        Err(DecodeError::UnexpectedEof)
    } else if s[k] != 58 {
        Err(DecodeError::InvalidLength)
    } else {
        let n = dec_value(s.take(k));
        if k + 1 + n > s.len() {
            Err(DecodeError::InvalidLength)
        } else {
            Ok((s.subrange(k + 1, k + 1 + n), k + 1 + n))
        }
    }
}

/// Parses an integer token `i<digits>e` at the start of `s` (`s[0] == 'i'`).
pub open spec fn parse_int(s: Seq<u8>) -> Result<(int, int), DecodeError> {
    let body_len = count_until(s.skip(1), 101);
    if body_len == s.len() - 1 {
        Err(DecodeError::UnexpectedEof)
    } else {
        let body = s.subrange(1, 1 + body_len);
        if !valid_int_body(body) || !fits_i64(int_body_value(body)) {
            Err(DecodeError::InvalidInteger)
        } else {
            Ok((int_body_value(body), body_len + 2))
        }
    }
}

/// Parses one bencode value at the start of `s`, returning the value and the
/// number of bytes consumed.
pub open spec fn parse_value(s: Seq<u8>) -> Result<(BValue, int), DecodeError>
    decreases s.len(), 0int,
{
    if s.len() == 0 {
        Err(DecodeError::UnexpectedEof)
    } else if s[0] == 105 {
        match parse_int(s) {
            Ok((v, n)) => Ok((BValue::Int(v), n)),
            Err(e) => Err(e),
        }
    } else if is_digit(s[0]) {
        match parse_bstring(s) {
            Ok((b, n)) => Ok((BValue::Bytes(b), n)),
            Err(e) => Err(e),
        }
    } else if s[0] == 108 {
        match parse_items(s.skip(1)) {
            Ok((items, n)) => Ok((BValue::List(items), 1 + n)),
            Err(e) => Err(e),
        }
    } else if s[0] == 100 {
        match parse_pairs(s.skip(1)) {
            Ok((pairs, n)) => Ok((BValue::Dict(pairs), 1 + n)),
            Err(e) => Err(e),
        }
    } else {
        Err(DecodeError::UnexpectedToken)
    }
}

/// Parses list elements up to and including the closing `e`.
pub open spec fn parse_items(s: Seq<u8>) -> Result<(Seq<BValue>, int), DecodeError>
    decreases s.len(), 1int,
{
    if s.len() == 0 {
        Err(DecodeError::UnexpectedEof)
    } else if s[0] == 101 {
        Ok((seq![], 1))
    } else {
        match parse_value(s) {
            Err(e) => Err(e),
            Ok((v, n)) => if 1 <= n <= s.len() {
                match parse_items(s.skip(n)) {
                    Err(e) => Err(e),
                    Ok((items, m)) => Ok((seq![v] + items, n + m)),
                }
            } else {
                // parse_value always consumes between 1 and s.len() bytes
                // (lemma_parse_value_consumes); this branch is never taken.
                Err(DecodeError::UnexpectedEof)
            },
        }
    }
}

/// Parses dictionary pairs up to and including the closing `e`.
pub open spec fn parse_pairs(s: Seq<u8>) -> Result<(Seq<(Seq<u8>, BValue)>, int), DecodeError>
    decreases s.len(), 1int,
{
    if s.len() == 0 {
        Err(DecodeError::UnexpectedEof)
    } else if s[0] == 101 {
        Ok((seq![], 1))
    } else if !is_digit(s[0]) {
        Err(DecodeError::InvalidDictionaryKey)
    } else {
        match parse_bstring(s) {
            Err(e) => Err(e),
            Ok((key, k)) => if 1 <= k <= s.len() {
                match parse_value(s.skip(k)) {
                    Err(e) => Err(e),
                    Ok((v, n)) => if 1 <= n && k + n <= s.len() {
                        match parse_pairs(s.skip(k + n)) {
                            Err(e) => Err(e),
                            Ok((pairs, m)) => Ok((seq![(key, v)] + pairs, k + n + m)),
                        }
                    } else {
                        Err(DecodeError::UnexpectedEof)
                    },
                }
            } else {
                Err(DecodeError::UnexpectedEof)
            },
        }
    }
}

/// `count_digits` counts exactly the leading run of ASCII digits.
pub proof fn lemma_count_digits(s: Seq<u8>)
    ensures
        0 <= count_digits(s) <= s.len(),
        forall|i: int| 0 <= i < count_digits(s) ==> is_digit(#[trigger] s[i]),
        count_digits(s) < s.len() ==> !is_digit(s[count_digits(s)]),
    decreases s.len(),
{
    if s.len() > 0 && is_digit(s[0]) {
        lemma_count_digits(s.skip(1));
        assert forall|i: int| 0 <= i < count_digits(s) implies is_digit(#[trigger] s[i]) by {
            if i > 0 {
                assert(s.skip(1)[i - 1] == s[i]);
            }
        }
        assert(count_digits(s) < s.len() ==> s.skip(1)[count_digits(s) - 1] == s[count_digits(
            s,
        )]);
    }
}

/// `count_until` counts exactly the leading run of bytes other than `stop`.
pub proof fn lemma_count_until(s: Seq<u8>, stop: u8)
    ensures
        0 <= count_until(s, stop) <= s.len(),
        forall|i: int| 0 <= i < count_until(s, stop) ==> #[trigger] s[i] != stop,
        count_until(s, stop) < s.len() ==> s[count_until(s, stop)] == stop,
    decreases s.len(),
{
    if s.len() > 0 && s[0] != stop {
        lemma_count_until(s.skip(1), stop);
        assert forall|i: int| 0 <= i < count_until(s, stop) implies #[trigger] s[i] != stop by {
            if i > 0 {
                assert(s.skip(1)[i - 1] == s[i]);
            }
        }
        assert(count_until(s, stop) < s.len() ==> s.skip(1)[count_until(s, stop) - 1] == s[
            count_until(s, stop)]);
    }
}

/// The value of a digit sequence is non-negative.
pub proof fn lemma_dec_value_nonneg(s: Seq<u8>)
    requires
        all_digits(s),
    ensures
        dec_value(s) >= 0,
    decreases s.len(),
{
    if s.len() > 0 {
        assert(all_digits(s.drop_last())) by {
            assert(forall|i: int|
                0 <= i < s.len() - 1 ==> #[trigger] s.drop_last()[i] == s[i]);
        }
        lemma_dec_value_nonneg(s.drop_last());
    }
}

/// A successful byte-string token parse consumes between 2 bytes and the
/// whole input.
pub proof fn lemma_parse_bstring_consumes(s: Seq<u8>)
    ensures
        parse_bstring(s) matches Ok((b, n)) ==> 2 <= n <= s.len(),
{
    lemma_count_digits(s);
    let k = count_digits(s);
    if 0 < k < s.len() && s[k] == 58 {
        assert(all_digits(s.take(k))) by {
            assert(forall|i: int| 0 <= i < k ==> #[trigger] s.take(k)[i] == s[i]);
        }
        lemma_dec_value_nonneg(s.take(k));
    }
}

/// A successful integer token parse consumes between 3 bytes and the whole
/// input.
pub proof fn lemma_parse_int_consumes(s: Seq<u8>)
    requires
        s.len() > 0,
    ensures
        parse_int(s) matches Ok((v, n)) ==> 3 <= n <= s.len(),
{
    lemma_count_until(s.skip(1), 101);
    let body_len = count_until(s.skip(1), 101);
    assert(body_len <= s.len() - 1);
}

/// Every successful parse consumes at least one byte and no more than the
/// whole input.
pub proof fn lemma_parse_value_consumes(s: Seq<u8>)
    ensures
        parse_value(s) matches Ok((v, n)) ==> 1 <= n <= s.len(),
        parse_items(s) matches Ok((items, n)) ==> 1 <= n <= s.len(),
        parse_pairs(s) matches Ok((pairs, n)) ==> 1 <= n <= s.len(),
    decreases s.len(),
{
    if s.len() == 0 {
        return;
    }
    if s[0] == 105 {
        lemma_parse_int_consumes(s);
    }
    if is_digit(s[0]) {
        lemma_parse_bstring_consumes(s);
    }
    if s[0] == 108 || s[0] == 100 {
        lemma_parse_value_consumes(s.skip(1));
    }
    if s[0] != 101 {
        if let Ok((v, n)) = parse_value(s) {
            if 1 <= n <= s.len() {
                lemma_parse_value_consumes(s.skip(n));
            }
        }
        if is_digit(s[0]) {
            if let Ok((key, k)) = parse_bstring(s) {
                if 1 <= k <= s.len() {
                    lemma_parse_value_consumes(s.skip(k));
                    if let Ok((v, n)) = parse_value(s.skip(k)) {
                        if 1 <= n && k + n <= s.len() {
                            lemma_parse_value_consumes(s.skip(k + n));
                        }
                    }
                }
            }
        }
    }
}

// ---------------------------------------------------------------------------
// Field extraction: the incremental dictionary cursor, as a specification.
// ---------------------------------------------------------------------------
/// The key `pieces`.
pub open spec fn key_pieces() -> Seq<u8> {
    seq![112u8, 105, 101, 99, 101, 115]
}

/// The key `piece length`.
pub open spec fn key_piece_length() -> Seq<u8> {
    seq![112u8, 105, 101, 99, 101, 32, 108, 101, 110, 103, 116, 104]
}

/// The key `length`.
pub open spec fn key_length() -> Seq<u8> {
    seq![108u8, 101, 110, 103, 116, 104]
}

/// The key `name`.
pub open spec fn key_name() -> Seq<u8> {
    seq![110u8, 97, 109, 101]
}

/// The key `announce`.
pub open spec fn key_announce() -> Seq<u8> {
    seq![97u8, 110, 110, 111, 117, 110, 99, 101]
}

/// The key `info`.
pub open spec fn key_info() -> Seq<u8> {
    seq![105u8, 110, 102, 111]
}

/// The mathematical content of a decoded info dictionary. Texts are kept as
/// their UTF-8 bytes.
pub struct InfoView {
    pub pieces: Seq<u8>,
    pub piece_length: int,
    pub length: int,
    pub name: Seq<u8>,
}

/// The mathematical content of a decoded torrent document.
pub struct TorrentView {
    pub announce: Seq<u8>,
    pub info: InfoView,
}

/// The fields of an info dictionary seen so far while walking its pairs.
pub struct InfoAcc {
    pub pieces: Option<Seq<u8>>,
    pub piece_length: Option<int>,
    pub length: Option<int>,
    pub name: Option<Seq<u8>>,
}

pub open spec fn info_acc_init() -> InfoAcc {
    InfoAcc { pieces: None, piece_length: None, length: None, name: None }
}

/// A value that must be a byte string (the shape check a required text or
/// bytes field performs before reading its value).
pub open spec fn parse_bytes_value(s: Seq<u8>, f: Field) -> Result<(Seq<u8>, int), DecodeError> {
    if s.len() == 0 {
        Err(DecodeError::UnexpectedEof)
    } else if !is_digit(s[0]) {
        Err(DecodeError::InvalidField(f))
    } else {
        parse_bstring(s)
    }
}

/// A value that must be an integer token.
pub open spec fn parse_int_value(s: Seq<u8>, f: Field) -> Result<(int, int), DecodeError> {
    if s.len() == 0 {
        Err(DecodeError::UnexpectedEof)
    } else if s[0] != 105 {
        Err(DecodeError::InvalidField(f))
    } else {
        parse_int(s)
    }
}

/// Walks the pairs of an info dictionary up to and including the closing `e`,
/// collecting the four known fields in order of appearance (a later duplicate
/// key overwrites an earlier one) and skipping unknown keys. Field checks
/// happen at the pair that carries the field: `piece length` below 1 and a
/// negative `length` fail with `InvalidField`, a `name` that is not UTF-8
/// fails with `InvalidUtf8`.
pub open spec fn parse_info_pairs(s: Seq<u8>, acc: InfoAcc) -> Result<(InfoAcc, int), DecodeError>
    decreases s.len(), 1int,
{
    if s.len() == 0 {
        Err(DecodeError::UnexpectedEof)
    } else if s[0] == 101 {
        Ok((acc, 1))
    } else if !is_digit(s[0]) {
        Err(DecodeError::InvalidDictionaryKey)
    } else {
        match parse_bstring(s) {
            Err(e) => Err(e),
            Ok((key, k)) => if 1 <= k <= s.len() {
                let rest = s.skip(k);
                if key == key_pieces() {
                    match parse_bytes_value(rest, Field::Pieces) {
                        Err(e) => Err(e),
                        Ok((b, n)) => step_info_pairs(
                            s,
                            k + n,
                            InfoAcc { pieces: Some(b), ..acc },
                        ),
                    }
                } else if key == key_piece_length() {
                    match parse_int_value(rest, Field::PieceLength) {
                        Err(e) => Err(e),
                        Ok((v, n)) => if v < 1 {
                            Err(DecodeError::InvalidField(Field::PieceLength))
                        } else {
                            step_info_pairs(s, k + n, InfoAcc { piece_length: Some(v), ..acc })
                        },
                    }
                } else if key == key_length() {
                    match parse_int_value(rest, Field::Length) {
                        Err(e) => Err(e),
                        Ok((v, n)) => if v < 0 {
                            Err(DecodeError::InvalidField(Field::Length))
                        } else {
                            step_info_pairs(s, k + n, InfoAcc { length: Some(v), ..acc })
                        },
                    }
                } else if key == key_name() {
                    match parse_bytes_value(rest, Field::Name) {
                        Err(e) => Err(e),
                        Ok((b, n)) => if !vstd::utf8::valid_utf8(b) {
                            Err(DecodeError::InvalidUtf8)
                        } else {
                            step_info_pairs(s, k + n, InfoAcc { name: Some(b), ..acc })
                        },
                    }
                } else {
                    match parse_value(rest) {
                        Err(e) => Err(e),
                        Ok((v, n)) => step_info_pairs(s, k + n, acc),
                    }
                }
            } else {
                Err(DecodeError::UnexpectedEof)
            },
        }
    }
}

/// Continues `parse_info_pairs` after one pair that occupied the first
/// `consumed` bytes of `s`.
pub open spec fn step_info_pairs(s: Seq<u8>, consumed: int, acc: InfoAcc) -> Result<
    (InfoAcc, int),
    DecodeError,
>
    decreases s.len(), 0int,
{
    if 1 <= consumed < s.len() {
        match parse_info_pairs(s.skip(consumed), acc) {
            Err(e) => Err(e),
            Ok((a, m)) => Ok((a, consumed + m)),
        }
    } else {
        Err(DecodeError::UnexpectedEof)
    }
}

/// Requires each of the four fields to have appeared, in the order the
/// decoder reports a missing one.
pub open spec fn finish_info(acc: InfoAcc) -> Result<InfoView, DecodeError> {
    if acc.pieces is None {
        Err(DecodeError::MissingField(Field::Pieces))
    } else if acc.piece_length is None {
        Err(DecodeError::MissingField(Field::PieceLength))
    } else if acc.length is None {
        Err(DecodeError::MissingField(Field::Length))
    } else if acc.name is None {
        Err(DecodeError::MissingField(Field::Name))
    } else {
        Ok(
            InfoView {
                pieces: acc.pieces->Some_0,
                piece_length: acc.piece_length->Some_0,
                length: acc.length->Some_0,
                name: acc.name->Some_0,
            },
        )
    }
}

/// Decodes an info dictionary at the start of `s` (bytes after it are
/// ignored).
pub open spec fn decode_info(s: Seq<u8>) -> Result<InfoView, DecodeError> {
    if s.len() == 0 {
        Err(DecodeError::UnexpectedEof)
    } else if s[0] != 100 {
        Err(DecodeError::InvalidField(Field::Info))
    } else {
        match parse_info_pairs(s.skip(1), info_acc_init()) {
            Err(e) => Err(e),
            Ok((acc, n)) => finish_info(acc),
        }
    }
}

/// Decodes an info dictionary standing as the value of the `info` key,
/// returning how many bytes it occupied.
pub open spec fn parse_info_value(s: Seq<u8>) -> Result<(InfoView, int), DecodeError> {
    if s.len() == 0 {
        Err(DecodeError::UnexpectedEof)
    } else if s[0] != 100 {
        Err(DecodeError::InvalidField(Field::Info))
    } else {
        match parse_info_pairs(s.skip(1), info_acc_init()) {
            Err(e) => Err(e),
            Ok((acc, n)) => match finish_info(acc) {
                Err(e) => Err(e),
                Ok(iv) => Ok((iv, 1 + n)),
            },
        }
    }
}

/// The fields of a torrent document seen so far while walking its pairs.
pub struct TorrentAcc {
    pub announce: Option<Seq<u8>>,
    pub info: Option<InfoView>,
}

/// Walks the pairs of a torrent document's dictionary: `announce` must be a
/// UTF-8 byte string, `info` a complete info dictionary; unknown keys are
/// skipped.
pub open spec fn parse_torrent_pairs(s: Seq<u8>, acc: TorrentAcc) -> Result<
    (TorrentAcc, int),
    DecodeError,
>
    decreases s.len(), 1int,
{
    if s.len() == 0 {
        Err(DecodeError::UnexpectedEof)
    } else if s[0] == 101 {
        Ok((acc, 1))
    } else if !is_digit(s[0]) {
        Err(DecodeError::InvalidDictionaryKey)
    } else {
        match parse_bstring(s) {
            Err(e) => Err(e),
            Ok((key, k)) => if 1 <= k <= s.len() {
                let rest = s.skip(k);
                if key == key_announce() {
                    match parse_bytes_value(rest, Field::Announce) {
                        Err(e) => Err(e),
                        Ok((b, n)) => if !vstd::utf8::valid_utf8(b) {
                            Err(DecodeError::InvalidUtf8)
                        } else {
                            step_torrent_pairs(s, k + n, TorrentAcc { announce: Some(b), ..acc })
                        },
                    }
                } else if key == key_info() {
                    match parse_info_value(rest) {
                        Err(e) => Err(e),
                        Ok((iv, n)) => step_torrent_pairs(
                            s,
                            k + n,
                            TorrentAcc { info: Some(iv), ..acc },
                        ),
                    }
                } else {
                    match parse_value(rest) {
                        Err(e) => Err(e),
                        Ok((v, n)) => step_torrent_pairs(s, k + n, acc),
                    }
                }
            } else {
                Err(DecodeError::UnexpectedEof)
            },
        }
    }
}

/// Continues `parse_torrent_pairs` after one pair that occupied the first
/// `consumed` bytes of `s`.
pub open spec fn step_torrent_pairs(s: Seq<u8>, consumed: int, acc: TorrentAcc) -> Result<
    (TorrentAcc, int),
    DecodeError,
>
    decreases s.len(), 0int,
{
    if 1 <= consumed < s.len() {
        match parse_torrent_pairs(s.skip(consumed), acc) {
            Err(e) => Err(e),
            Ok((a, m)) => Ok((a, consumed + m)),
        }
    } else {
        Err(DecodeError::UnexpectedEof)
    }
}

pub open spec fn finish_torrent(acc: TorrentAcc) -> Result<TorrentView, DecodeError> {
    if acc.announce is None {
        Err(DecodeError::MissingField(Field::Announce))
    } else if acc.info is None {
        Err(DecodeError::MissingField(Field::Info))
    } else {
        Ok(TorrentView { announce: acc.announce->Some_0, info: acc.info->Some_0 })
    }
}

/// Decodes a whole torrent document at the start of `s` (bytes after the
/// top-level dictionary are ignored).
pub open spec fn decode_torrent(s: Seq<u8>) -> Result<TorrentView, DecodeError> {
    if s.len() == 0 {
        Err(DecodeError::UnexpectedEof)
    } else if s[0] != 100 {
        Err(DecodeError::UnexpectedToken)
    } else {
        match parse_torrent_pairs(s.skip(1), TorrentAcc { announce: None, info: None }) {
            Err(e) => Err(e),
            Ok((acc, n)) => finish_torrent(acc),
        }
    }
}

// ---------------------------------------------------------------------------
// The decoder: executable counterparts of the parsing functions above.
// ---------------------------------------------------------------------------
/// Skipping `a` bytes and then `b` more skips `a + b` bytes.
pub proof fn lemma_skip_skip(s: Seq<u8>, a: int, b: int)
    requires
        0 <= a,
        0 <= b,
        a + b <= s.len(),
    ensures
        s.skip(a).skip(b) == s.skip(a + b),
{
    assert(s.skip(a).skip(b) =~= s.skip(a + b));
}

/// A digit sequence is worth at least as much as any of its prefixes.
pub proof fn lemma_dec_value_prefix(s: Seq<u8>, k: int)
    requires
        all_digits(s),
        0 <= k <= s.len(),
    ensures
        dec_value(s) >= dec_value(s.take(k)),
        dec_value(s) >= 0,
    decreases s.len(),
{
    lemma_dec_value_nonneg(s);
    if k < s.len() {
        assert(all_digits(s.drop_last())) by {
            assert(forall|i: int| 0 <= i < s.len() - 1 ==> #[trigger] s.drop_last()[i] == s[i]);
        }
        lemma_dec_value_prefix(s.drop_last(), k);
        assert(s.drop_last().take(k) =~= s.take(k));
        assert(dec_value(s) == dec_value(s.drop_last()) * 10 + (s.last() - 48));
        lemma_dec_value_nonneg(s.drop_last());
    } else {
        assert(s.take(k) =~= s);
    }
}

/// Scans the run of ASCII digits that starts at `pos`.
fn scan_digits(s: &[u8], pos: usize) -> (end: usize)
    requires
        pos <= s@.len(),
    ensures
        pos <= end <= s@.len(),
        end - pos == count_digits(s@.skip(pos as int)),
{
    let mut i = pos;
    while i < s.len() && 48 <= s[i] && s[i] <= 57
        invariant
            pos <= i <= s@.len(),
            count_digits(s@.skip(pos as int)) == (i - pos) + count_digits(s@.skip(i as int)),
        decreases s@.len() - i,
    {
        proof {
            lemma_skip_skip(s@, i as int, 1);
            assert(count_digits(s@.skip(i as int)) == 1 + count_digits(s@.skip(i + 1)));
        }
        i = i + 1;
    }
    proof {
        assert(count_digits(s@.skip(i as int)) == 0);
    }
    i
}

/// Scans forward from `pos` to the first occurrence of `stop` (or the end).
fn scan_until(s: &[u8], pos: usize, stop: u8) -> (end: usize)
    requires
        pos <= s@.len(),
    ensures
        pos <= end <= s@.len(),
        end - pos == count_until(s@.skip(pos as int), stop),
{
    let mut i = pos;
    while i < s.len() && s[i] != stop
        invariant
            pos <= i <= s@.len(),
            count_until(s@.skip(pos as int), stop) == (i - pos) + count_until(
                s@.skip(i as int),
                stop,
            ),
        decreases s@.len() - i,
    {
        proof {
            lemma_skip_skip(s@, i as int, 1);
            assert(count_until(s@.skip(i as int), stop) == 1 + count_until(s@.skip(i + 1), stop));
        }
        i = i + 1;
    }
    proof {
        assert(count_until(s@.skip(i as int), stop) == 0);
    }
    i
}

/// Reads the value of the digit run `s[start..end]`, reporting when it does
/// not fit in 64 bits.
fn digits_value(s: &[u8], start: usize, end: usize) -> (r: Option<u64>)
    requires
        start <= end <= s@.len(),
        all_digits(s@.subrange(start as int, end as int)),
    ensures
        match r {
            Some(v) => v as int == dec_value(s@.subrange(start as int, end as int)),
            None => dec_value(s@.subrange(start as int, end as int)) > u64::MAX as int,
        },
{
    let ghost whole = s@.subrange(start as int, end as int);
    let mut acc: u64 = 0;
    let mut i = start;
    while i < end
        invariant
            start <= i <= end <= s@.len(),
            all_digits(whole),
            whole == s@.subrange(start as int, end as int),
            acc as int == dec_value(s@.subrange(start as int, i as int)),
        decreases end - i,
    {
        let b = s[i];
        proof {
            assert(whole[i - start] == s@[i as int]);
            assert(is_digit(b));
        }
        let d = b - 48;
        if acc > (u64::MAX - d as u64) / 10 {
            proof {
                let pre = s@.subrange(start as int, i + 1);
                assert(all_digits(pre)) by {
                    assert(forall|j: int| 0 <= j < pre.len() ==> pre[j] == whole[j]);
                }
                assert(pre.drop_last() =~= s@.subrange(start as int, i as int));
                assert(pre.last() == s@[i as int]);
                assert(dec_value(pre) == acc as int * 10 + d);
                assert(acc as int * 10 + d > u64::MAX as int) by (nonlinear_arith)
                    requires
                        acc as int > (u64::MAX as int - d) / 10,
                        0 <= d <= 9,
                ;
                lemma_dec_value_prefix(whole, i + 1 - start);
                assert(whole.take(i + 1 - start) =~= pre);
            }
            return None;
        }
        proof {
            assert(acc as int * 10 + d <= u64::MAX as int) by (nonlinear_arith)
                requires
                    acc as int <= (u64::MAX as int - d) / 10,
                    0 <= d <= 9,
            ;
            let pre = s@.subrange(start as int, i + 1);
            assert(pre.drop_last() =~= s@.subrange(start as int, i as int));
            assert(pre.last() == s@[i as int]);
        }
        acc = acc * 10 + d as u64;
        i = i + 1;
    }
    proof {
        assert(s@.subrange(start as int, end as int) =~= whole);
    }
    Some(acc)
}

/// Compares `s[start..end]` with `key`.
fn range_eq(s: &[u8], start: usize, end: usize, key: &Vec<u8>) -> (r: bool)
    requires
        start <= end <= s@.len(),
    ensures
        r == (s@.subrange(start as int, end as int) == key@),
{
    let ghost range = s@.subrange(start as int, end as int);
    if end - start != key.len() {
        proof {
            assert(range.len() != key@.len());
        }
        return false;
    }
    let mut i: usize = 0;
    while i < key.len()
        invariant
            0 <= i <= key@.len(),
            start <= end <= s@.len(),
            end - start == key@.len(),
            range == s@.subrange(start as int, end as int),
            forall|j: int| 0 <= j < i ==> range[j] == key@[j],
        decreases key@.len() - i,
    {
        if s[start + i] != key[i] {
            proof {
                assert(range[i as int] == s@[start + i]);
            }
            return false;
        }
        i = i + 1;
    }
    proof {
        assert(range =~= key@);
    }
    true
}

/// Parses the byte-string token at `pos`, returning where its payload starts
/// and ends.
fn parse_bstring_at(s: &[u8], pos: usize) -> (r: Result<(usize, usize), DecodeError>)
    requires
        pos <= s@.len(),
    ensures
        match r {
            Ok((ps, end)) => {
                &&& pos <= ps <= end <= s@.len()
                &&& parse_bstring(s@.skip(pos as int)) matches Ok(p)
                &&& parse_bstring(s@.skip(pos as int))->Ok_0.0 == s@.subrange(
                    ps as int,
                    end as int,
                )
                &&& parse_bstring(s@.skip(pos as int))->Ok_0.1 == end - pos
            },
            Err(e) => parse_bstring(s@.skip(pos as int)) == Err::<(Seq<u8>, int), DecodeError>(e),
        },
{
    let ghost rest = s@.skip(pos as int);
    let dend = scan_digits(s, pos);
    let ghost k = count_digits(rest);
    proof {
        lemma_count_digits(rest);
    }
    if dend == pos {
        return Err(DecodeError::InvalidLength);
    }
    if dend == s.len() {
        return Err(DecodeError::UnexpectedEof);
    }
    proof {
        assert(rest[k] == s@[dend as int]);
    }
    if s[dend] != 58 {
        return Err(DecodeError::InvalidLength);
    }
    proof {
        assert(rest.take(k) =~= s@.subrange(pos as int, dend as int));
        assert(all_digits(rest.take(k)));
        lemma_dec_value_nonneg(rest.take(k));
    }
    match digits_value(s, pos, dend) {
        None => {
            proof {
                assert(s@.len() <= u64::MAX as int);
            }
            Err(DecodeError::InvalidLength)
        },
        Some(n) => {
            if n > ((s.len() - dend) - 1) as u64 {
                Err(DecodeError::InvalidLength)
            } else {
                let ps = dend + 1;
                let end = ps + (n as usize);
                proof {
                    assert(rest.subrange(k + 1, k + 1 + n as int) =~= s@.subrange(
                        ps as int,
                        end as int,
                    ));
                }
                Ok((ps, end))
            }
        },
    }
}

/// Parses the integer token at `pos` (`s[pos]` is `i`).
fn parse_int_at(s: &[u8], pos: usize) -> (r: Result<(i64, usize), DecodeError>)
    requires
        pos < s@.len(),
        s@[pos as int] == 105,
    ensures
        match r {
            Ok((v, end)) => {
                &&& pos < end <= s@.len()
                &&& parse_int(s@.skip(pos as int)) matches Ok(p)
                &&& parse_int(s@.skip(pos as int))->Ok_0.0 == v as int
                &&& parse_int(s@.skip(pos as int))->Ok_0.1 == end - pos
            },
            Err(e) => parse_int(s@.skip(pos as int)) == Err::<(int, int), DecodeError>(e),
        },
{
    let slen = s.len();
    let ghost rest = s@.skip(pos as int);
    proof {
        lemma_skip_skip(s@, pos as int, 1);
    }
    let bend = scan_until(s, pos + 1, 101);
    let ghost body_len = count_until(rest.skip(1), 101);
    proof {
        assert(body_len == bend - pos - 1);
        lemma_count_until(rest.skip(1), 101);
    }
    if bend == s.len() {
        return Err(DecodeError::UnexpectedEof);
    }
    let ghost body = rest.subrange(1, 1 + body_len);
    proof {
        assert(body =~= s@.subrange(pos + 1, bend as int));
        assert(forall|j: int| 0 <= j < body.len() ==> body[j] == s@[pos + 1 + j]);
    }
    if bend == pos + 1 {
        return Err(DecodeError::InvalidInteger);
    }
    let neg = s[pos + 1] == 45;
    let dstart = if neg {
        pos + 2
    } else {
        pos + 1
    };
    if neg && bend == pos + 2 {
        // the body is a bare minus sign
        return Err(DecodeError::InvalidInteger);
    }
    let dend = scan_digits(s, dstart);
    let ghost drun = count_digits(s@.skip(dstart as int));
    proof {
        lemma_count_digits(s@.skip(dstart as int));
        // the run of digits cannot pass the closing `e`
        assert(drun <= bend - dstart) by {
            if drun > bend - dstart {
                assert(is_digit(s@.skip(dstart as int)[bend - dstart]));
                assert(s@.skip(dstart as int)[bend - dstart] == s@[bend as int]);
                assert(false);
            }
        }
    }
    if dend != bend {
        // a non-digit byte other than the closing `e` sits in the body
        proof {
            assert(s@.skip(dstart as int)[drun] == s@[dend as int]);
            assert(!is_digit(s@[dend as int]));
            assert(body[dend - pos - 1] == s@[dend as int]);
            if neg {
                assert(body.skip(1)[dend - pos - 2] == body[dend - pos - 1]);
                assert(!all_digits(body.skip(1)));
            } else {
                assert(!all_digits(body));
            }
            assert(!valid_int_body(body));
        }
        return Err(DecodeError::InvalidInteger);
    }
    proof {
        assert forall|j: int| dstart <= j < bend implies is_digit(#[trigger] s@[j]) by {
            assert(s@.skip(dstart as int)[j - dstart] == s@[j]);
        }
    }
    if neg {
        if s[dstart] == 48 {
            proof {
                assert(body[1] == s@[dstart as int]);
            }
            return Err(DecodeError::InvalidInteger);
        }
    } else {
        if s[dstart] == 48 && bend - dstart > 1 {
            proof {
                assert(body[0] == s@[dstart as int]);
            }
            return Err(DecodeError::InvalidInteger);
        }
    }
    let ghost digits = s@.subrange(dstart as int, bend as int);
    proof {
        assert(all_digits(digits));
        if neg {
            assert(digits =~= body.skip(1));
        } else {
            assert(digits =~= body);
        }
        assert(valid_int_body(body));
        lemma_dec_value_nonneg(digits);
    }
    match digits_value(s, dstart, bend) {
        None => {
            proof {
                assert(!fits_i64(int_body_value(body)));
            }
            Err(DecodeError::InvalidInteger)
        },
        Some(m) => {
            if neg {
                if m > 9223372036854775808u64 {
                    return Err(DecodeError::InvalidInteger);
                }
                let v: i64 = if m == 9223372036854775808u64 {
                    i64::MIN
                } else {
                    -(m as i64)
                };
                Ok((v, bend + 1))
            } else {
                if m > i64::MAX as u64 {
                    return Err(DecodeError::InvalidInteger);
                }
                Ok((m as i64, bend + 1))
            }
        },
    }
}

/// Walks over the bencode value at `pos` without building it, validating it
/// exactly as `parse_value` describes.
fn skip_value_at(s: &[u8], pos: usize) -> (r: Result<usize, DecodeError>)
    requires
        pos <= s@.len(),
    ensures
        match r {
            Ok(end) => {
                &&& pos < end <= s@.len()
                &&& parse_value(s@.skip(pos as int)) matches Ok(p)
                &&& parse_value(s@.skip(pos as int))->Ok_0.1 == end - pos
            },
            Err(e) => parse_value(s@.skip(pos as int)) matches Err(e2) && e2 == e,
        },
    decreases s@.len() - pos,
{
    let ghost rest = s@.skip(pos as int);
    if pos == s.len() {
        return Err(DecodeError::UnexpectedEof);
    }
    let b = s[pos];
    proof {
        assert(rest[0] == b);
    }
    if b == 105 {
        match parse_int_at(s, pos) {
            Ok((_, end)) => Ok(end),
            Err(e) => Err(e),
        }
    } else if 48 <= b && b <= 57 {
        match parse_bstring_at(s, pos) {
            Ok((_, end)) => {
                proof {
                    lemma_parse_bstring_consumes(rest);
                }
                Ok(end)
            },
            Err(e) => Err(e),
        }
    } else if b == 108 {
        let mut p = pos + 1;
        proof {
            lemma_skip_skip(s@, pos as int, 1);
        }
        loop
            invariant
                pos < p <= s@.len(),
                s@.len() <= usize::MAX,
                s@[pos as int] == 108,
                rest == s@.skip(pos as int),
                (match parse_items(s@.skip(p as int)) {
                    Ok((it, m)) => parse_items(s@.skip(pos + 1)) matches Ok(q) && q.1 == (p - pos
                        - 1) + m,
                    Err(e) => parse_items(s@.skip(pos + 1)) == Err::<
                        (Seq<BValue>, int),
                        DecodeError,
                    >(e),
                }),
            decreases s@.len() - p,
        {
            proof {
                lemma_skip_skip(s@, pos as int, 1);
            }
            if p == s.len() {
                proof {
                    assert(s@.skip(p as int) =~= Seq::<u8>::empty());
                }
                return Err(DecodeError::UnexpectedEof);
            }
            proof {
                assert(s@.skip(p as int)[0] == s@[p as int]);
            }
            if s[p] == 101 {
                proof {
                    assert(parse_items(s@.skip(p as int)) == Ok::<_, DecodeError>((
                        Seq::<BValue>::empty(),
                        1int,
                    )));
                }
                return Ok(p + 1);
            }
            let ghost p0 = p as int;
            match skip_value_at(s, p) {
                Err(e) => {
                    proof {
                        assert(parse_items(s@.skip(p0)) == Err::<
                            (Seq<BValue>, int),
                            DecodeError,
                        >(e));
                    }
                    return Err(e);
                },
                Ok(p2) => {
                    proof {
                        lemma_skip_skip(s@, p0, p2 - p0);
                    }
                    p = p2;
                },
            }
        }
    } else if b == 100 {
        let mut p = pos + 1;
        proof {
            lemma_skip_skip(s@, pos as int, 1);
        }
        loop
            invariant
                pos < p <= s@.len(),
                s@.len() <= usize::MAX,
                s@[pos as int] == 100,
                rest == s@.skip(pos as int),
                (match parse_pairs(s@.skip(p as int)) {
                    Ok((it, m)) => parse_pairs(s@.skip(pos + 1)) matches Ok(q) && q.1 == (p - pos
                        - 1) + m,
                    Err(e) => parse_pairs(s@.skip(pos + 1)) == Err::<
                        (Seq<(Seq<u8>, BValue)>, int),
                        DecodeError,
                    >(e),
                }),
            decreases s@.len() - p,
        {
            proof {
                lemma_skip_skip(s@, pos as int, 1);
            }
            if p == s.len() {
                proof {
                    assert(s@.skip(p as int) =~= Seq::<u8>::empty());
                }
                return Err(DecodeError::UnexpectedEof);
            }
            proof {
                assert(s@.skip(p as int)[0] == s@[p as int]);
            }
            if s[p] == 101 {
                proof {
                    assert(parse_pairs(s@.skip(p as int)) == Ok::<_, DecodeError>((
                        Seq::<(Seq<u8>, BValue)>::empty(),
                        1int,
                    )));
                }
                return Ok(p + 1);
            }
            let kb = s[p];
            if !(48 <= kb && kb <= 57) {
                return Err(DecodeError::InvalidDictionaryKey);
            }
            let ghost p0 = p as int;
            match parse_bstring_at(s, p) {
                Err(e) => {
                    proof {
                        assert(parse_pairs(s@.skip(p0)) == Err::<
                            (Seq<(Seq<u8>, BValue)>, int),
                            DecodeError,
                        >(e));
                    }
                    return Err(e);
                },
                Ok((_, kend)) => {
                    proof {
                        lemma_parse_bstring_consumes(s@.skip(p0));
                        lemma_skip_skip(s@, p0, kend - p0);
                    }
                    match skip_value_at(s, kend) {
                        Err(e) => {
                            proof {
                                assert(parse_pairs(s@.skip(p0)) == Err::<
                                    (Seq<(Seq<u8>, BValue)>, int),
                                    DecodeError,
                                >(e));
                            }
                            return Err(e);
                        },
                        Ok(p2) => {
                            proof {
                                lemma_skip_skip(s@, p0, p2 - p0);
                            }
                            p = p2;
                        },
                    }
                },
            }
        }
    } else {
        Err(DecodeError::UnexpectedToken)
    }
}

/// Relies on `String::from_utf8`: it succeeds exactly on valid UTF-8 and the
/// returned string holds exactly the given bytes.
#[verifier::external_body]
fn string_from_utf8(bytes: Vec<u8>) -> (r: Option<String>)
    ensures
        r matches Some(st) ==> vstd::utf8::valid_utf8(bytes@) && vstd::utf8::encode_utf8(st@)
            == bytes@ && st@ == vstd::utf8::decode_utf8(bytes@),
        r is None ==> !vstd::utf8::valid_utf8(bytes@),
{
    String::from_utf8(bytes).ok()
}

/// Copies `s[start..end]` into a fresh vector.
fn copy_range(s: &[u8], start: usize, end: usize) -> (r: Vec<u8>)
    requires
        start <= end <= s@.len(),
    ensures
        r@ == s@.subrange(start as int, end as int),
{
    let sub = vstd::slice::slice_subrange(s, start, end);
    vstd::slice::slice_to_vec(sub)
}

/// The required fields of a torrent's info dictionary.
#[derive(Debug, Clone, PartialEq, Eq, Hash)]
pub struct BencodeInfo {
    pub pieces: Vec<u8>,
    pub piece_length: u64,
    pub length: u64,
    pub name: String,
}

impl View for BencodeInfo {
    type V = InfoView;

    open spec fn view(&self) -> InfoView {
        InfoView {
            pieces: self.pieces@,
            piece_length: self.piece_length as int,
            length: self.length as int,
            name: vstd::utf8::encode_utf8(self.name@),
        }
    }
}

/// A decoded torrent document: the announce URL and the info dictionary.
#[derive(Debug, Clone, PartialEq, Eq, Hash)]
pub struct BencodeTorrent {
    pub announce: String,
    pub info: BencodeInfo,
}

impl View for BencodeTorrent {
    type V = TorrentView;

    open spec fn view(&self) -> TorrentView {
        TorrentView { announce: vstd::utf8::encode_utf8(self.announce@), info: self.info@ }
    }
}

/// The four fields collected while walking an info dictionary.
struct InfoFields {
    pieces: Option<Vec<u8>>,
    piece_length: Option<u64>,
    length: Option<u64>,
    name: Option<String>,
}

/// The fields collected so far, as `parse_info_pairs` sees them.
spec fn fields_acc(f: InfoFields) -> InfoAcc {
    InfoAcc {
        pieces: match f.pieces {
            Some(v) => Some(v@),
            None => None,
        },
        piece_length: match f.piece_length {
            Some(v) => Some(v as int),
            None => None,
        },
        length: match f.length {
            Some(v) => Some(v as int),
            None => None,
        },
        name: match f.name {
            Some(v) => Some(vstd::utf8::encode_utf8(v@)),
            None => None,
        },
    }
}

/// Handles one `key value` pair at `p` (the caller has ruled out the end of
/// the input and the closing `e`), returning the updated fields and the
/// position after the pair.
#[verifier::rlimit(100)]
fn decode_info_pair(s: &[u8], p: usize, fields: InfoFields) -> (r: Result<
    (InfoFields, usize),
    DecodeError,
>)
    requires
        p < s@.len(),
        s@[p as int] != 101,
    ensures
        match r {
            Ok((f2, p2)) => p < p2 <= s@.len() && (match parse_info_pairs(
                s@.skip(p2 as int),
                fields_acc(f2),
            ) {
                Ok((a, m)) => parse_info_pairs(s@.skip(p as int), fields_acc(fields)) == Ok::<
                    (InfoAcc, int),
                    DecodeError,
                >((a, (p2 - p) + m)),
                Err(e) => parse_info_pairs(s@.skip(p as int), fields_acc(fields)) == Err::<
                    (InfoAcc, int),
                    DecodeError,
                >(e),
            }),
            Err(e) => parse_info_pairs(s@.skip(p as int), fields_acc(fields)) == Err::<
                (InfoAcc, int),
                DecodeError,
            >(e),
        },
{
    let key_pieces_v: Vec<u8> = vec![112u8, 105, 101, 99, 101, 115];
    let key_piece_length_v: Vec<u8> = vec![112u8, 105, 101, 99, 101, 32, 108, 101, 110, 103, 116, 104];
    let key_length_v: Vec<u8> = vec![108u8, 101, 110, 103, 116, 104];
    let key_name_v: Vec<u8> = vec![110u8, 97, 109, 101];
    proof {
        assert(key_pieces_v@ =~= key_pieces());
        assert(key_piece_length_v@ =~= key_piece_length());
        assert(key_length_v@ =~= key_length());
        assert(key_name_v@ =~= key_name());
    }
    let mut fields = fields;
    let slen = s.len();
    proof {
        assert(s@.len() == slen);
        assert(s@.skip(p as int)[0] == s@[p as int]);
    }
    let kb = s[p];
    if !(48 <= kb && kb <= 57) {
        return Err(DecodeError::InvalidDictionaryKey);
    }
    let ghost p0 = p as int;
    let (ks, ke) = match parse_bstring_at(s, p) {
        Err(e) => {
            return Err(e);
        },
        Ok(kk) => kk,
    };
    proof {
        lemma_parse_bstring_consumes(s@.skip(p0));
        lemma_skip_skip(s@, p0, ke - p0);
    }
    if range_eq(s, ks, ke, &key_pieces_v) {
        if ke == slen {
            proof {
                assert(s@.skip(ke as int) =~= Seq::<u8>::empty());
            }
            return Err(DecodeError::UnexpectedEof);
        }
        proof {
            assert(s@.skip(ke as int)[0] == s@[ke as int]);
        }
        let vb = s[ke];
        if !(48 <= vb && vb <= 57) {
            return Err(DecodeError::InvalidField(Field::Pieces));
        }
        match parse_bstring_at(s, ke) {
            Err(e) => Err(e),
            Ok((vs, ve)) => {
                proof {
                    lemma_parse_bstring_consumes(s@.skip(ke as int));
                    lemma_skip_skip(s@, p0, ve - p0);
                }
                fields.pieces = Some(copy_range(s, vs, ve));
                Ok((fields, ve))
            },
        }
    } else if range_eq(s, ks, ke, &key_piece_length_v) {
        if ke == slen {
            proof {
                assert(s@.skip(ke as int) =~= Seq::<u8>::empty());
            }
            return Err(DecodeError::UnexpectedEof);
        }
        proof {
            assert(s@.skip(ke as int)[0] == s@[ke as int]);
        }
        if s[ke] != 105 {
            return Err(DecodeError::InvalidField(Field::PieceLength));
        }
        match parse_int_at(s, ke) {
            Err(e) => Err(e),
            Ok((v, ve)) => {
                if v < 1 {
                    return Err(DecodeError::InvalidField(Field::PieceLength));
                }
                proof {
                    lemma_skip_skip(s@, p0, ve - p0);
                }
                fields.piece_length = Some(v as u64);
                Ok((fields, ve))
            },
        }
    } else if range_eq(s, ks, ke, &key_length_v) {
        if ke == slen {
            proof {
                assert(s@.skip(ke as int) =~= Seq::<u8>::empty());
            }
            return Err(DecodeError::UnexpectedEof);
        }
        proof {
            assert(s@.skip(ke as int)[0] == s@[ke as int]);
        }
        if s[ke] != 105 {
            return Err(DecodeError::InvalidField(Field::Length));
        }
        match parse_int_at(s, ke) {
            Err(e) => Err(e),
            Ok((v, ve)) => {
                if v < 0 {
                    return Err(DecodeError::InvalidField(Field::Length));
                }
                proof {
                    lemma_skip_skip(s@, p0, ve - p0);
                }
                fields.length = Some(v as u64);
                Ok((fields, ve))
            },
        }
    } else if range_eq(s, ks, ke, &key_name_v) {
        if ke == slen {
            proof {
                assert(s@.skip(ke as int) =~= Seq::<u8>::empty());
            }
            return Err(DecodeError::UnexpectedEof);
        }
        proof {
            assert(s@.skip(ke as int)[0] == s@[ke as int]);
        }
        let vb = s[ke];
        if !(48 <= vb && vb <= 57) {
            return Err(DecodeError::InvalidField(Field::Name));
        }
        match parse_bstring_at(s, ke) {
            Err(e) => Err(e),
            Ok((vs, ve)) => {
                proof {
                    lemma_parse_bstring_consumes(s@.skip(ke as int));
                    lemma_skip_skip(s@, p0, ve - p0);
                }
                let raw = copy_range(s, vs, ve);
                match string_from_utf8(raw) {
                    None => Err(DecodeError::InvalidUtf8),
                    Some(st) => {
                        fields.name = Some(st);
                        Ok((fields, ve))
                    },
                }
            },
        }
    } else {
        match skip_value_at(s, ke) {
            Err(e) => Err(e),
            Ok(ve) => {
                proof {
                    lemma_skip_skip(s@, p0, ve - p0);
                }
                Ok((fields, ve))
            },
        }
    }
}

/// Walks the pairs of an info dictionary starting at `pos` (just after the
/// opening `d`), building the record.
fn decode_info_pairs(s: &[u8], pos: usize) -> (r: Result<(BencodeInfo, usize), DecodeError>)
    requires
        pos <= s@.len(),
    ensures
        match r {
            Ok((info, end)) => {
                &&& pos < end <= s@.len()
                &&& parse_info_pairs(s@.skip(pos as int), info_acc_init()) matches Ok(q)
                &&& finish_info(parse_info_pairs(s@.skip(pos as int), info_acc_init())->Ok_0.0)
                    == Ok::<InfoView, DecodeError>(info@)
                &&& parse_info_pairs(s@.skip(pos as int), info_acc_init())->Ok_0.1 == end - pos
            },
            Err(e) => (match parse_info_pairs(s@.skip(pos as int), info_acc_init()) {
                Ok((acc, m)) => finish_info(acc) == Err::<InfoView, DecodeError>(e),
                Err(e2) => e2 == e,
            }),
        },
{
    let mut fields = InfoFields { pieces: None, piece_length: None, length: None, name: None };
    let slen = s.len();
    proof {
        assert(s@.len() == slen);
    }
    let mut p = pos;
    loop
        invariant
            pos <= p <= s@.len(),
            s@.len() <= usize::MAX,
            (match parse_info_pairs(s@.skip(p as int), fields_acc(fields)) {
                Ok((a, m)) => parse_info_pairs(s@.skip(pos as int), info_acc_init()) matches Ok(q)
                    && q.0 == a && q.1 == (p - pos) + m,
                Err(e) => parse_info_pairs(s@.skip(pos as int), info_acc_init()) == Err::<
                    (InfoAcc, int),
                    DecodeError,
                >(e),
            }),
        decreases s@.len() - p,
    {
        let ghost acc = fields_acc(fields);
        if p == s.len() {
            proof {
                assert(s@.skip(p as int) =~= Seq::<u8>::empty());
            }
            return Err(DecodeError::UnexpectedEof);
        }
        proof {
            assert(s@.skip(p as int)[0] == s@[p as int]);
        }
        if s[p] == 101 {
            proof {
                assert(parse_info_pairs(s@.skip(p as int), acc) == Ok::<_, DecodeError>((
                    acc,
                    1int,
                )));
            }
            let out_pieces = match fields.pieces {
                None => {
                    return Err(DecodeError::MissingField(Field::Pieces));
                },
                Some(v) => v,
            };
            let out_piece_length = match fields.piece_length {
                None => {
                    return Err(DecodeError::MissingField(Field::PieceLength));
                },
                Some(v) => v,
            };
            let out_length = match fields.length {
                None => {
                    return Err(DecodeError::MissingField(Field::Length));
                },
                Some(v) => v,
            };
            let out_name = match fields.name {
                None => {
                    return Err(DecodeError::MissingField(Field::Name));
                },
                Some(v) => v,
            };
            let info = BencodeInfo {
                pieces: out_pieces,
                piece_length: out_piece_length,
                length: out_length,
                name: out_name,
            };
            return Ok((info, p + 1));
        }
        match decode_info_pair(s, p, fields) {
            Err(e) => {
                return Err(e);
            },
            Ok((f2, p2)) => {
                fields = f2;
                p = p2;
            },
        }
    }
}


impl BencodeInfo {
    /// Decodes an info dictionary from its bencoded bytes.
    pub fn from_bencode(bytes: &[u8]) -> (r: Result<BencodeInfo, DecodeError>)
        ensures
            match r {
                Ok(info) => decode_info(bytes@) == Ok::<InfoView, DecodeError>(info@),
                Err(e) => decode_info(bytes@) == Err::<InfoView, DecodeError>(e),
            },
    {
        if bytes.len() == 0 {
            return Err(DecodeError::UnexpectedEof);
        }
        if bytes[0] != 100 {
            return Err(DecodeError::InvalidField(Field::Info));
        }
        match decode_info_pairs(bytes, 1) {
            Err(e) => Err(e),
            Ok((info, _end)) => Ok(info),
        }
    }
}

/// The fields collected so far, as `parse_torrent_pairs` sees them.
pub open spec fn torrent_acc_of(announce: Option<String>, info: Option<BencodeInfo>) -> TorrentAcc {
    TorrentAcc {
        announce: match announce {
            Some(a) => Some(vstd::utf8::encode_utf8(a@)),
            None => None,
        },
        info: match info {
            Some(i) => Some(i@),
            None => None,
        },
    }
}

/// Walks the pairs of a torrent document's dictionary starting at `pos` (just
/// after the opening `d`), building the record.
#[verifier::rlimit(100)]
fn decode_torrent_pairs(s: &[u8], pos: usize) -> (r: Result<(BencodeTorrent, usize), DecodeError>)
    requires
        pos <= s@.len(),
    ensures
        match r {
            Ok((t, end)) => {
                &&& pos < end <= s@.len()
                &&& parse_torrent_pairs(
                    s@.skip(pos as int),
                    TorrentAcc { announce: None, info: None },
                ) matches Ok(q)
                &&& finish_torrent(
                    parse_torrent_pairs(
                        s@.skip(pos as int),
                        TorrentAcc { announce: None, info: None },
                    )->Ok_0.0,
                ) == Ok::<TorrentView, DecodeError>(t@)
                &&& parse_torrent_pairs(
                    s@.skip(pos as int),
                    TorrentAcc { announce: None, info: None },
                )->Ok_0.1 == end - pos
            },
            Err(e) => (match parse_torrent_pairs(
                s@.skip(pos as int),
                TorrentAcc { announce: None, info: None },
            ) {
                Ok((acc, m)) => finish_torrent(acc) == Err::<TorrentView, DecodeError>(e),
                Err(e2) => e2 == e,
            }),
        },
{
    let key_announce_v: Vec<u8> = vec![97u8, 110, 110, 111, 117, 110, 99, 101];
    let key_info_v: Vec<u8> = vec![105u8, 110, 102, 111];
    proof {
        assert(key_announce_v@ =~= key_announce());
        assert(key_info_v@ =~= key_info());
    }
    let mut announce: Option<String> = None;
    let mut info: Option<BencodeInfo> = None;
    let slen = s.len();
    proof {
        assert(s@.len() == slen);
    }
    let mut p = pos;
    loop
        invariant
            pos <= p <= s@.len(),
            s@.len() <= usize::MAX,
            key_announce_v@ == key_announce(),
            key_info_v@ == key_info(),
            (match parse_torrent_pairs(s@.skip(p as int), torrent_acc_of(announce, info)) {
                Ok((a, m)) => parse_torrent_pairs(
                    s@.skip(pos as int),
                    TorrentAcc { announce: None, info: None },
                ) matches Ok(q) && q.0 == a && q.1 == (p - pos) + m,
                Err(e) => parse_torrent_pairs(
                    s@.skip(pos as int),
                    TorrentAcc { announce: None, info: None },
                ) == Err::<(TorrentAcc, int), DecodeError>(e),
            }),
        decreases s@.len() - p,
    {
        let ghost acc = torrent_acc_of(announce, info);
        if p == s.len() {
            proof {
                assert(s@.skip(p as int) =~= Seq::<u8>::empty());
            }
            return Err(DecodeError::UnexpectedEof);
        }
        proof {
            assert(s@.skip(p as int)[0] == s@[p as int]);
        }
        if s[p] == 101 {
            proof {
                assert(parse_torrent_pairs(s@.skip(p as int), acc) == Ok::<_, DecodeError>((
                    acc,
                    1int,
                )));
            }
            let out_announce = match announce {
                None => {
                    return Err(DecodeError::MissingField(Field::Announce));
                },
                Some(a) => a,
            };
            let out_info = match info {
                None => {
                    return Err(DecodeError::MissingField(Field::Info));
                },
                Some(i) => i,
            };
            let t = BencodeTorrent { announce: out_announce, info: out_info };
            return Ok((t, p + 1));
        }
        let kb = s[p];
        if !(48 <= kb && kb <= 57) {
            return Err(DecodeError::InvalidDictionaryKey);
        }
        let ghost p0 = p as int;
        let (ks, ke) = match parse_bstring_at(s, p) {
            Err(e) => {
                return Err(e);
            },
            Ok(kk) => kk,
        };
        proof {
            lemma_parse_bstring_consumes(s@.skip(p0));
            lemma_skip_skip(s@, p0, ke - p0);
        }
        if range_eq(s, ks, ke, &key_announce_v) {
            if ke == s.len() {
                proof {
                    assert(s@.skip(ke as int) =~= Seq::<u8>::empty());
                }
                return Err(DecodeError::UnexpectedEof);
            }
            proof {
                assert(s@.skip(ke as int)[0] == s@[ke as int]);
            }
            let vb = s[ke];
            if !(48 <= vb && vb <= 57) {
                return Err(DecodeError::InvalidField(Field::Announce));
            }
            match parse_bstring_at(s, ke) {
                Err(e) => {
                    return Err(e);
                },
                Ok((vs, ve)) => {
                    proof {
                        lemma_parse_bstring_consumes(s@.skip(ke as int));
                        lemma_skip_skip(s@, p0, ve - p0);
                    }
                    let raw = copy_range(s, vs, ve);
                    match string_from_utf8(raw) {
                        None => {
                            return Err(DecodeError::InvalidUtf8);
                        },
                        Some(st) => {
                            announce = Some(st);
                            p = ve;
                        },
                    }
                },
            }
        } else if range_eq(s, ks, ke, &key_info_v) {
            if ke == s.len() {
                proof {
                    assert(s@.skip(ke as int) =~= Seq::<u8>::empty());
                }
                return Err(DecodeError::UnexpectedEof);
            }
            proof {
                assert(s@.skip(ke as int)[0] == s@[ke as int]);
            }
            if s[ke] != 100 {
                return Err(DecodeError::InvalidField(Field::Info));
            }
            match decode_info_pairs(s, ke + 1) {
                Err(e) => {
                    proof {
                        lemma_skip_skip(s@, ke as int, 1);
                    }
                    return Err(e);
                },
                Ok((iv, ve)) => {
                    proof {
                        lemma_skip_skip(s@, ke as int, 1);
                        lemma_skip_skip(s@, p0, ve - p0);
                    }
                    info = Some(iv);
                    p = ve;
                },
            }
        } else {
            match skip_value_at(s, ke) {
                Err(e) => {
                    return Err(e);
                },
                Ok(ve) => {
                    proof {
                        lemma_skip_skip(s@, p0, ve - p0);
                    }
                    p = ve;
                },
            }
        }
    }
}

impl BencodeTorrent {
    /// Decodes a whole torrent document from its bencoded bytes.
    pub fn from_bencode(bytes: &[u8]) -> (r: Result<BencodeTorrent, DecodeError>)
        ensures
            match r {
                Ok(t) => decode_torrent(bytes@) == Ok::<TorrentView, DecodeError>(t@),
                Err(e) => decode_torrent(bytes@) == Err::<TorrentView, DecodeError>(e),
            },
    {
        if bytes.len() == 0 {
            return Err(DecodeError::UnexpectedEof);
        }
        if bytes[0] != 100 {
            return Err(DecodeError::UnexpectedToken);
        }
        match decode_torrent_pairs(bytes, 1) {
            Err(e) => Err(e),
            Ok((t, _end)) => Ok(t),
        }
    }
}

// ---------------------------------------------------------------------------
// Canonical encoder and info hasher.
// ---------------------------------------------------------------------------
/// A length-mismatch failure, carrying the offending length.
#[derive(Debug, Clone, Copy, PartialEq, Eq, Structural)]
pub enum ValidationError {
    /// The `pieces` blob length is not a multiple of 20.
    MalformedPieceLength(u64),
    /// A compact peer list length is not a multiple of 6.
    MalformedPeerListLength(u64),
}

impl ValidationError {
    /// A diagnostic line; the length-carrying variant spells the length out.
    pub fn message(&self) -> (r: String)
        ensures
            (*self) matches ValidationError::MalformedPieceLength(l) ==> r@
                == "Received malformed pieces: length "@ + crate::text::dec_chars(l as int)
                + " is not a multiple of 20"@,
            (*self) matches ValidationError::MalformedPeerListLength(l) ==> r@
                == "Received malformed peers list (length not divisible by 6): "@
                + crate::text::dec_chars(l as int),
    {
        let mut m = String::new();
        match self {
            ValidationError::MalformedPieceLength(l) => {
                m.append("Received malformed pieces: length ");
                crate::text::push_decimal_chars(&mut m, *l);
                m.append(" is not a multiple of 20");
            },
            ValidationError::MalformedPeerListLength(l) => {
                m.append("Received malformed peers list (length not divisible by 6): ");
                crate::text::push_decimal_chars(&mut m, *l);
            },
        }
        m
    }
}

impl Field {
    /// The dictionary key this field stands for.
    pub fn name(&self) -> (r: &'static str)
        ensures
            *self == Field::Announce ==> r@ == "announce"@,
            *self == Field::Info ==> r@ == "info"@,
            *self == Field::Pieces ==> r@ == "pieces"@,
            *self == Field::PieceLength ==> r@ == "piece length"@,
            *self == Field::Length ==> r@ == "length"@,
            *self == Field::Name ==> r@ == "name"@,
    {
        match self {
            Field::Announce => "announce",
            Field::Info => "info",
            Field::Pieces => "pieces",
            Field::PieceLength => "piece length",
            Field::Length => "length",
            Field::Name => "name",
        }
    }
}

impl DecodeError {
    /// A diagnostic line naming what went wrong, and for a field error which
    /// key it concerns.
    pub fn message(&self) -> (r: String)
        ensures
            (*self) matches DecodeError::MissingField(f) ==> r@ == "missing field: "@
                + field_name_chars(f),
            (*self) matches DecodeError::InvalidField(f) ==> r@ == "invalid field: "@
                + field_name_chars(f),
    {
        let mut m = String::new();
        match self {
            DecodeError::UnexpectedEof => m.append("unexpected end of input"),
            DecodeError::InvalidLength => m.append("invalid byte string length"),
            DecodeError::InvalidInteger => m.append("invalid integer"),
            DecodeError::InvalidDictionaryKey => m.append("dictionary key is not a byte string"),
            DecodeError::UnexpectedToken => m.append("unexpected token"),
            DecodeError::MissingField(f) => {
                m.append("missing field: ");
                m.append(f.name());
            },
            DecodeError::InvalidField(f) => {
                m.append("invalid field: ");
                m.append(f.name());
            },
            DecodeError::InvalidUtf8 => m.append("text field is not valid UTF-8"),
        }
        m
    }
}

/// The key a field error names, as characters.
pub open spec fn field_name_chars(f: Field) -> Seq<char> {
    match f {
        Field::Announce => "announce"@,
        Field::Info => "info"@,
        Field::Pieces => "pieces"@,
        Field::PieceLength => "piece length"@,
        Field::Length => "length"@,
        Field::Name => "name"@,
    }
}

/// A byte string in bencode notation: `<len>:<raw bytes>`.
pub open spec fn enc_bstr(b: Seq<u8>) -> Seq<u8> {
    dec_bytes(b.len() as int) + seq![58u8] + b
}

/// A non-negative integer in bencode notation: `i<digits>e`.
pub open spec fn enc_int(n: int) -> Seq<u8> {
    seq![105u8] + dec_bytes(n) + seq![101u8]
}

/// The canonical bencoding of the four known info fields, in fixed ascending
/// key order: `length`, `name`, `piece length`, `pieces`.
pub open spec fn encode_info(iv: InfoView) -> Seq<u8> {
    seq![100u8] + enc_bstr(key_length()) + enc_int(iv.length) + enc_bstr(key_name()) + enc_bstr(
        iv.name,
    ) + enc_bstr(key_piece_length()) + enc_int(iv.piece_length) + enc_bstr(key_pieces())
        + enc_bstr(iv.pieces) + seq![101u8]
}

/// The 20-byte digest the info hasher computes, named after the outside
/// function that computes it.
pub uninterp spec fn sha1_of(data: Seq<u8>) -> Seq<u8>;

/// Relies on `sha1::Sha1` through the `Digest` trait: the digest depends on
/// the input bytes alone and is exactly 20 bytes long.
#[verifier::external_body]
fn sha1_digest(data: &[u8]) -> (r: [u8; 20])
    ensures
        r@ == sha1_of(data@),
{
    let out = <sha1::Sha1 as sha1::Digest>::digest(data);
    out.into()
}

/// Appends `key` and `bytes`, each as a bencode byte string.
pub fn encode_bytes_field(buf: &mut Vec<u8>, key: &Vec<u8>, bytes: &Vec<u8>)
    ensures
        final(buf)@ == old(buf)@ + enc_bstr(key@) + enc_bstr(bytes@),
{
    push_decimal(buf, key.len() as u64);
    buf.push(58);
    buf.extend_from_slice(key.as_slice());
    push_decimal(buf, bytes.len() as u64);
    buf.push(58);
    buf.extend_from_slice(bytes.as_slice());
    proof {
        assert(final(buf)@ =~= old(buf)@ + enc_bstr(key@) + enc_bstr(bytes@));
    }
}

/// Appends `key` as a bencode byte string and `value` as a bencode integer.
pub fn encode_int_field(buf: &mut Vec<u8>, key: &Vec<u8>, value: u64)
    ensures
        final(buf)@ == old(buf)@ + enc_bstr(key@) + enc_int(value as int),
{
    push_decimal(buf, key.len() as u64);
    buf.push(58);
    buf.extend_from_slice(key.as_slice());
    buf.push(105);
    push_decimal(buf, value);
    buf.push(101);
    proof {
        assert(final(buf)@ =~= old(buf)@ + enc_bstr(key@) + enc_int(value as int));
    }
}

/// Appends `key` as a bencode byte string and `value`'s UTF-8 bytes as a
/// bencode byte string.
pub fn encode_str_field(buf: &mut Vec<u8>, key: &Vec<u8>, value: &str)
    ensures
        final(buf)@ == old(buf)@ + enc_bstr(key@) + enc_bstr(
            vstd::utf8::encode_utf8(value@),
        ),
{
    let vb = value.as_bytes_vec();
    encode_bytes_field(buf, key, &vb);
}

impl BencodeInfo {
    /// Re-serializes the four known info fields in canonical order.
    pub fn canonical_encode(&self) -> (r: Vec<u8>)
        ensures
            r@ == encode_info(self@),
    {
        let key_length_v: Vec<u8> = vec![108u8, 101, 110, 103, 116, 104];
        let key_name_v: Vec<u8> = vec![110u8, 97, 109, 101];
        let key_piece_length_v: Vec<u8> = vec![112u8, 105, 101, 99, 101, 32, 108, 101, 110, 103, 116, 104];
        let key_pieces_v: Vec<u8> = vec![112u8, 105, 101, 99, 101, 115];
        proof {
            assert(key_length_v@ =~= key_length());
            assert(key_name_v@ =~= key_name());
            assert(key_piece_length_v@ =~= key_piece_length());
            assert(key_pieces_v@ =~= key_pieces());
        }
        let mut buf: Vec<u8> = Vec::new();
        buf.push(100);
        encode_int_field(&mut buf, &key_length_v, self.length);
        encode_str_field(&mut buf, &key_name_v, self.name.as_str());
        encode_int_field(&mut buf, &key_piece_length_v, self.piece_length);
        encode_bytes_field(&mut buf, &key_pieces_v, &self.pieces);
        buf.push(101);
        proof {
            assert(buf@ =~= encode_info(self@));
        }
        buf
    }

    /// The 20-byte info hash: the digest of the canonical encoding. The same
    /// field values always produce the same hash.
    pub fn hash(&self) -> (r: [u8; 20])
        ensures
            r@ == sha1_of(encode_info(self@)),
    {
        let buf = self.canonical_encode();
        sha1_digest(buf.as_slice())
    }

    /// Slices the `pieces` blob into its ordered 20-byte hash records; fails
    /// with the offending length when it is not a multiple of 20.
    pub fn split_pieces_hashes(&self) -> (r: Result<Vec<[u8; 20]>, ValidationError>)
        ensures
            self.pieces@.len() % 20 == 0 ==> (r matches Ok(v) && v@.len() == self.pieces@.len()
                / 20 && (forall|i: int|
                0 <= i < v@.len() ==> #[trigger] v@[i]@ == self.pieces@.subrange(
                    20 * i,
                    20 * i + 20,
                ))),
            self.pieces@.len() % 20 != 0 ==> r == Err::<Vec<[u8; 20]>, ValidationError>(
                ValidationError::MalformedPieceLength(self.pieces@.len() as u64),
            ),
    {
        if self.pieces.len() % 20 != 0 {
            return Err(ValidationError::MalformedPieceLength(self.pieces.len() as u64));
        }
        let count = self.pieces.len() / 20;
        let mut out: Vec<[u8; 20]> = Vec::new();
        let mut i: usize = 0;
        while i < count
            invariant
                0 <= i <= count,
                count == self.pieces@.len() / 20,
                self.pieces@.len() % 20 == 0,
                self.pieces@.len() <= usize::MAX,
                out@.len() == i,
                forall|j: int|
                    0 <= j < i ==> #[trigger] out@[j]@ == self.pieces@.subrange(
                        20 * j,
                        20 * j + 20,
                    ),
            decreases count - i,
        {
            let mut arr = [0u8; 20];
            let mut j: usize = 0;
            while j < 20
                invariant
                    0 <= j <= 20,
                    i < count,
                    count == self.pieces@.len() / 20,
                    self.pieces@.len() % 20 == 0,
                    self.pieces@.len() <= usize::MAX,
                    forall|t: int| 0 <= t < j ==> arr@[t] == self.pieces@[20 * i + t],
                decreases 20 - j,
            {
                proof {
                    assert(20 * (count as int) == self.pieces@.len());
                    assert(20 * (i as int) + (j as int) < 20 * (count as int));
                }
                arr[j] = self.pieces[20 * i + j];
                j = j + 1;
            }
            proof {
                assert(arr@ =~= self.pieces@.subrange(20 * i as int, 20 * i as int + 20));
            }
            out.push(arr);
            i = i + 1;
        }
        Ok(out)
    }
}

// ---------------------------------------------------------------------------
// Round trip: the canonical encoding decodes back to the same four fields.
// ---------------------------------------------------------------------------
/// Decimal notation is made of digits, is never empty, has no leading zero,
/// and is worth the number it was printed from.
pub proof fn lemma_dec_bytes_wf(n: int)
    requires
        n >= 0,
    ensures
        all_digits(dec_bytes(n)),
        dec_bytes(n).len() >= 1,
        n >= 1 ==> dec_bytes(n)[0] != 48,
        dec_value(dec_bytes(n)) == n,
    decreases n,
{
    if n <= 9 {
        let d = dec_bytes(n);
        assert((48 + n) as u8 == 48 + n);
        assert(d =~= seq![(48 + n) as u8]);
        assert(d.drop_last() =~= Seq::<u8>::empty());
        assert(dec_value(d.drop_last()) == 0);
        assert(d.last() == (48 + n) as u8);
        assert(dec_value(d) == (48 + n) - 48);
    } else {
        lemma_dec_bytes_wf(n / 10);
        let d = dec_bytes(n / 10);
        let last = (48 + n % 10) as u8;
        assert(dec_bytes(n) == d + seq![last]);
        assert(all_digits(d + seq![last])) by {
            assert(forall|i: int|
                0 <= i < d.len() ==> #[trigger] (d + seq![last])[i] == d[i]);
            assert((d + seq![last])[d.len() as int] == last);
        }
        assert((d + seq![last])[0] == d[0]);
        assert((d + seq![last]).drop_last() =~= d);
        assert((d + seq![last]).last() == last);
        assert(dec_value(d + seq![last]) == (n / 10) * 10 + (n % 10));
    }
}

/// Counting digits stops exactly at the first non-digit.
pub proof fn lemma_count_digits_concat(a: Seq<u8>, b: Seq<u8>)
    requires
        all_digits(a),
        b.len() == 0 || !is_digit(b[0]),
    ensures
        count_digits(a + b) == a.len(),
    decreases a.len(),
{
    if a.len() == 0 {
        assert(a + b =~= b);
    } else {
        assert((a + b)[0] == a[0]);
        assert(all_digits(a.skip(1))) by {
            assert(forall|i: int| 0 <= i < a.len() - 1 ==> #[trigger] a.skip(1)[i] == a[i + 1]);
        }
        lemma_count_digits_concat(a.skip(1), b);
        assert((a + b).skip(1) =~= a.skip(1) + b);
    }
}

/// Counting up to `stop` stops exactly at its first occurrence.
pub proof fn lemma_count_until_concat(a: Seq<u8>, b: Seq<u8>, stop: u8)
    requires
        forall|i: int| 0 <= i < a.len() ==> #[trigger] a[i] != stop,
        b.len() > 0,
        b[0] == stop,
    ensures
        count_until(a + b, stop) == a.len(),
    decreases a.len(),
{
    if a.len() == 0 {
        assert(a + b =~= b);
    } else {
        assert((a + b)[0] == a[0]);
        lemma_count_until_concat(a.skip(1), b, stop);
        assert((a + b).skip(1) =~= a.skip(1) + b);
    }
}

/// A byte-string token at the head of a buffer parses to its payload.
pub proof fn lemma_parse_bstring_enc(b: Seq<u8>, rest: Seq<u8>)
    ensures
        parse_bstring(enc_bstr(b) + rest) == Ok::<(Seq<u8>, int), DecodeError>((
            b,
            enc_bstr(b).len() as int,
        )),
{
    let d = dec_bytes(b.len() as int);
    lemma_dec_bytes_wf(b.len() as int);
    let s = enc_bstr(b) + rest;
    let after = seq![58u8] + b + rest;
    assert(s =~= d + after);
    assert(after[0] == 58);
    lemma_count_digits_concat(d, after);
    let k = d.len() as int;
    assert(count_digits(s) == k);
    assert(s[k] == after[0]);
    assert(s.take(k) =~= d);
    assert(dec_value(s.take(k)) == b.len());
    assert(s.len() == k + 1 + b.len() + rest.len());
    assert(s.subrange(k + 1, k + 1 + b.len() as int) =~= b);
}

/// An integer token at the head of a buffer parses to its value.
pub proof fn lemma_parse_int_enc(n: int, rest: Seq<u8>)
    requires
        0 <= n <= i64::MAX,
    ensures
        parse_int(enc_int(n) + rest) == Ok::<(int, int), DecodeError>((
            n,
            enc_int(n).len() as int,
        )),
{
    let d = dec_bytes(n);
    lemma_dec_bytes_wf(n);
    let s = enc_int(n) + rest;
    let after = seq![101u8] + rest;
    assert(s =~= seq![105u8] + (d + after));
    assert(s[0] == 105);
    assert(s.skip(1) =~= d + after);
    assert(forall|i: int| 0 <= i < d.len() ==> #[trigger] d[i] != 101) by {
        assert(forall|i: int| 0 <= i < d.len() ==> is_digit(#[trigger] d[i]));
    }
    lemma_count_until_concat(d, after, 101);
    let body_len = d.len() as int;
    assert(count_until(s.skip(1), 101) == body_len);
    assert(s.len() == 1 + d.len() + 1 + rest.len());
    assert(s.subrange(1, 1 + body_len) =~= d);
    assert(is_digit(d[0]));
    assert(valid_int_body(d));
    assert(int_body_value(d) == n);
}

/// One walk step over the pair `length` -> integer.
proof fn lemma_step_length(length: int, t2: Seq<u8>, acc: InfoAcc)
    requires
        0 <= length <= i64::MAX,
        t2.len() > 0,
    ensures
        ({
            let t1 = enc_bstr(key_length()) + enc_int(length) + t2;
            let c1 = enc_bstr(key_length()).len() + enc_int(length).len();
            parse_info_pairs(t1, acc) == step_info_pairs(
                t1,
                c1 as int,
                InfoAcc { length: Some(length), ..acc },
            )
        }),
{
    let t1 = enc_bstr(key_length()) + enc_int(length) + t2;
    assert(key_length()[0] != key_pieces()[0]);
    assert(key_length().len() != key_piece_length().len());
    lemma_dec_bytes_wf(key_length().len() as int);
    assert(t1[0] == dec_bytes(key_length().len() as int)[0]);
    assert(is_digit(t1[0]));
    assert(t1 =~= enc_bstr(key_length()) + (enc_int(length) + t2));
    lemma_parse_bstring_enc(key_length(), enc_int(length) + t2);
    let c1k = enc_bstr(key_length()).len() as int;
    let r1 = t1.skip(c1k);
    assert(r1 =~= enc_int(length) + t2);
    assert(r1[0] == 105);
    lemma_parse_int_enc(length, t2);
}

/// One walk step over the pair `name` -> byte string.
proof fn lemma_step_name(name: Seq<u8>, t3: Seq<u8>, acc: InfoAcc)
    requires
        vstd::utf8::valid_utf8(name),
        t3.len() > 0,
    ensures
        ({
            let t2 = enc_bstr(key_name()) + enc_bstr(name) + t3;
            let c2 = enc_bstr(key_name()).len() + enc_bstr(name).len();
            parse_info_pairs(t2, acc) == step_info_pairs(
                t2,
                c2 as int,
                InfoAcc { name: Some(name), ..acc },
            )
        }),
{
    let t2 = enc_bstr(key_name()) + enc_bstr(name) + t3;
    assert(key_name().len() != key_pieces().len());
    assert(key_name().len() != key_piece_length().len());
    assert(key_name().len() != key_length().len());
    lemma_dec_bytes_wf(key_name().len() as int);
    assert(t2[0] == dec_bytes(key_name().len() as int)[0]);
    assert(is_digit(t2[0]));
    assert(t2 =~= enc_bstr(key_name()) + (enc_bstr(name) + t3));
    lemma_parse_bstring_enc(key_name(), enc_bstr(name) + t3);
    let c2k = enc_bstr(key_name()).len() as int;
    let r2 = t2.skip(c2k);
    assert(r2 =~= enc_bstr(name) + t3);
    lemma_dec_bytes_wf(name.len() as int);
    assert(r2[0] == dec_bytes(name.len() as int)[0]);
    assert(is_digit(r2[0]));
    lemma_parse_bstring_enc(name, t3);
}

/// One walk step over the pair `piece length` -> integer.
proof fn lemma_step_piece_length(piece_length: int, t4: Seq<u8>, acc: InfoAcc)
    requires
        1 <= piece_length <= i64::MAX,
        t4.len() > 0,
    ensures
        ({
            let t3 = enc_bstr(key_piece_length()) + enc_int(piece_length) + t4;
            let c3 = enc_bstr(key_piece_length()).len() + enc_int(piece_length).len();
            parse_info_pairs(t3, acc) == step_info_pairs(
                t3,
                c3 as int,
                InfoAcc { piece_length: Some(piece_length), ..acc },
            )
        }),
{
    let t3 = enc_bstr(key_piece_length()) + enc_int(piece_length) + t4;
    assert(key_piece_length().len() != key_pieces().len());
    lemma_dec_bytes_wf(key_piece_length().len() as int);
    assert(t3[0] == dec_bytes(key_piece_length().len() as int)[0]);
    assert(is_digit(t3[0]));
    assert(t3 =~= enc_bstr(key_piece_length()) + (enc_int(piece_length) + t4));
    lemma_parse_bstring_enc(key_piece_length(), enc_int(piece_length) + t4);
    let c3k = enc_bstr(key_piece_length()).len() as int;
    let r3 = t3.skip(c3k);
    assert(r3 =~= enc_int(piece_length) + t4);
    assert(r3[0] == 105);
    lemma_parse_int_enc(piece_length, t4);
}

/// One walk step over the pair `pieces` -> byte string.
proof fn lemma_step_pieces(pieces: Seq<u8>, t5: Seq<u8>, acc: InfoAcc)
    requires
        t5.len() > 0,
    ensures
        ({
            let t4 = enc_bstr(key_pieces()) + enc_bstr(pieces) + t5;
            let c4 = enc_bstr(key_pieces()).len() + enc_bstr(pieces).len();
            parse_info_pairs(t4, acc) == step_info_pairs(
                t4,
                c4 as int,
                InfoAcc { pieces: Some(pieces), ..acc },
            )
        }),
{
    let t4 = enc_bstr(key_pieces()) + enc_bstr(pieces) + t5;
    lemma_dec_bytes_wf(key_pieces().len() as int);
    assert(t4[0] == dec_bytes(key_pieces().len() as int)[0]);
    assert(is_digit(t4[0]));
    assert(t4 =~= enc_bstr(key_pieces()) + (enc_bstr(pieces) + t5));
    lemma_parse_bstring_enc(key_pieces(), enc_bstr(pieces) + t5);
    let c4k = enc_bstr(key_pieces()).len() as int;
    let r4 = t4.skip(c4k);
    assert(r4 =~= enc_bstr(pieces) + t5);
    lemma_dec_bytes_wf(pieces.len() as int);
    assert(r4[0] == dec_bytes(pieces.len() as int)[0]);
    assert(is_digit(r4[0]));
    lemma_parse_bstring_enc(pieces, t5);
}

/// The canonical encoding from the `pieces` pair on.
spec fn canon_tail_pieces(iv: InfoView) -> Seq<u8> {
    enc_bstr(key_pieces()) + enc_bstr(iv.pieces) + seq![101u8]
}

/// The canonical encoding from the `piece length` pair on.
spec fn canon_tail_piece_length(iv: InfoView) -> Seq<u8> {
    enc_bstr(key_piece_length()) + enc_int(iv.piece_length) + canon_tail_pieces(iv)
}

/// The canonical encoding from the `name` pair on.
spec fn canon_tail_name(iv: InfoView) -> Seq<u8> {
    enc_bstr(key_name()) + enc_bstr(iv.name) + canon_tail_piece_length(iv)
}

/// The canonical encoding from the `length` pair on: everything between the
/// opening `d` and the end.
spec fn canon_tail_length(iv: InfoView) -> Seq<u8> {
    enc_bstr(key_length()) + enc_int(iv.length) + canon_tail_name(iv)
}

/// The accumulator after the walk saw every field of `iv`.
spec fn canon_acc_full(iv: InfoView) -> InfoAcc {
    InfoAcc {
        pieces: Some(iv.pieces),
        piece_length: Some(iv.piece_length),
        length: Some(iv.length),
        name: Some(iv.name),
    }
}

proof fn lemma_canon_walk_pieces(iv: InfoView, acc: InfoAcc)
    ensures
        parse_info_pairs(canon_tail_pieces(iv), acc) == Ok::<(InfoAcc, int), DecodeError>((
            InfoAcc { pieces: Some(iv.pieces), ..acc },
            canon_tail_pieces(iv).len() as int,
        )),
{
    let tail5: Seq<u8> = seq![101u8];
    lemma_step_pieces(iv.pieces, tail5, acc);
    let acc2 = InfoAcc { pieces: Some(iv.pieces), ..acc };
    let c: int = (enc_bstr(key_pieces()).len() + enc_bstr(iv.pieces).len()) as int;
    assert(canon_tail_pieces(iv).skip(c) =~= tail5);
    assert(parse_info_pairs(tail5, acc2) == Ok::<(InfoAcc, int), DecodeError>((acc2, 1)));
}

proof fn lemma_canon_walk_piece_length(iv: InfoView, acc: InfoAcc)
    requires
        1 <= iv.piece_length <= i64::MAX,
    ensures
        parse_info_pairs(canon_tail_piece_length(iv), acc) == Ok::<(InfoAcc, int), DecodeError>((
            InfoAcc { pieces: Some(iv.pieces), piece_length: Some(iv.piece_length), ..acc },
            canon_tail_piece_length(iv).len() as int,
        )),
{
    lemma_step_piece_length(iv.piece_length, canon_tail_pieces(iv), acc);
    let accn = InfoAcc { piece_length: Some(iv.piece_length), ..acc };
    lemma_canon_walk_pieces(iv, accn);
    let c: int = (enc_bstr(key_piece_length()).len() + enc_int(iv.piece_length).len()) as int;
    assert(canon_tail_piece_length(iv).skip(c) =~= canon_tail_pieces(iv));
}

proof fn lemma_canon_walk_name(iv: InfoView, acc: InfoAcc)
    requires
        1 <= iv.piece_length <= i64::MAX,
        vstd::utf8::valid_utf8(iv.name),
    ensures
        parse_info_pairs(canon_tail_name(iv), acc) == Ok::<(InfoAcc, int), DecodeError>((
            InfoAcc {
                pieces: Some(iv.pieces),
                piece_length: Some(iv.piece_length),
                name: Some(iv.name),
                ..acc
            },
            canon_tail_name(iv).len() as int,
        )),
{
    lemma_step_name(iv.name, canon_tail_piece_length(iv), acc);
    let accn = InfoAcc { name: Some(iv.name), ..acc };
    lemma_canon_walk_piece_length(iv, accn);
    let c: int = (enc_bstr(key_name()).len() + enc_bstr(iv.name).len()) as int;
    assert(canon_tail_name(iv).skip(c) =~= canon_tail_piece_length(iv));
}

proof fn lemma_canon_walk_length(iv: InfoView)
    requires
        0 <= iv.length <= i64::MAX,
        1 <= iv.piece_length <= i64::MAX,
        vstd::utf8::valid_utf8(iv.name),
    ensures
        parse_info_pairs(canon_tail_length(iv), info_acc_init()) == Ok::<
            (InfoAcc, int),
            DecodeError,
        >((canon_acc_full(iv), canon_tail_length(iv).len() as int)),
{
    lemma_step_length(iv.length, canon_tail_name(iv), info_acc_init());
    let accn = InfoAcc { length: Some(iv.length), ..info_acc_init() };
    lemma_canon_walk_name(iv, accn);
    let c: int = (enc_bstr(key_length()).len() + enc_int(iv.length).len()) as int;
    assert(canon_tail_length(iv).skip(c) =~= canon_tail_name(iv));
}

/// Decoding the canonical encoding of an info record yields exactly that
/// record back, whatever the original file's byte layout was.
pub proof fn lemma_decode_canonical_encode(iv: InfoView)
    requires
        0 <= iv.length <= i64::MAX,
        1 <= iv.piece_length <= i64::MAX,
        vstd::utf8::valid_utf8(iv.name),
    ensures
        decode_info(encode_info(iv)) == Ok::<InfoView, DecodeError>(iv),
{
    let s = encode_info(iv);
    assert(s =~= seq![100u8] + canon_tail_length(iv));
    assert(s[0] == 100);
    assert(s.skip(1) =~= canon_tail_length(iv));
    lemma_canon_walk_length(iv);
    assert(finish_info(canon_acc_full(iv)) == Ok::<InfoView, DecodeError>(iv));
}


/// Two info records with the same canonical encoding hold the same four
/// fields: changing any one field changes the buffer the info hasher reads.
pub proof fn lemma_canonical_encode_injective(a: InfoView, b: InfoView)
    requires
        0 <= a.length <= i64::MAX,
        1 <= a.piece_length <= i64::MAX,
        vstd::utf8::valid_utf8(a.name),
        0 <= b.length <= i64::MAX,
        1 <= b.piece_length <= i64::MAX,
        vstd::utf8::valid_utf8(b.name),
        encode_info(a) == encode_info(b),
    ensures
        a == b,
{
    lemma_decode_canonical_encode(a);
    lemma_decode_canonical_encode(b);
}

} // verus!
