//! The torrent descriptor: an immutable aggregate of announce URL, info
//! hash, piece hashes and sizes, and the tracker announce-URL builder.

use vstd::prelude::*;
use vstd::string::StringExecFns;

use crate::bencode::{encode_info, sha1_of, BencodeTorrent, ValidationError};
use crate::text::{dec_chars, hex_digit, push_decimal_chars};

verus! {

/// The announce string could not be parsed as an absolute URL; it is carried
/// for diagnostics.
#[derive(Debug, Clone, PartialEq, Eq)]
pub struct InvalidAnnounceUrl(pub String);

/// Is `b` an ASCII letter or digit?
pub open spec fn is_alnum_byte(b: u8) -> bool {
    (48 <= b && b <= 57) || (65 <= b && b <= 90) || (97 <= b && b <= 122)
}

/// How one byte is percent-encoded under the rule "escape every byte that is
/// not alphanumeric".
pub open spec fn pct_byte(b: u8) -> Seq<char> {
    if is_alnum_byte(b) {
        seq![b as char]
    } else {
        seq!['%', hex_digit(b as int / 16), hex_digit(b as int % 16)]
    }
}

/// The percent-encoding of a byte sequence.
pub open spec fn pct_encoded(s: Seq<u8>) -> Seq<char>
    decreases s.len(),
{
    if s.len() == 0 {
        Seq::empty()
    } else {
        pct_byte(s[0]) + pct_encoded(s.skip(1))
    }
}

/// The query component of a tracker announce request, in its fixed order.
pub open spec fn tracker_query(info_hash: Seq<u8>, peer_id: Seq<u8>, port: u16, left: int) -> Seq<
    char,
> {
    "info_hash="@ + pct_encoded(info_hash) + "&peer_id="@ + pct_encoded(peer_id) + "&port="@
        + dec_chars(port as int) + "&uploaded=0&downloaded=0&compact=1&left="@ + dec_chars(left)
}

/// Characters that the URL serializer keeps verbatim inside a query.
pub open spec fn is_query_char(c: char) -> bool {
    ('0' <= c && c <= '9') || ('A' <= c && c <= 'Z') || ('a' <= c && c <= 'z') || c == '%' || c
        == '&' || c == '=' || c == '_'
}

pub open spec fn query_safe(q: Seq<char>) -> bool {
    forall|i: int| 0 <= i < q.len() ==> is_query_char(#[trigger] q[i])
}

/// Whether `url::Url::parse` accepts the string: a property of the string
/// alone.
pub uninterp spec fn url_parse_ok(s: Seq<char>) -> bool;

/// The serialization of the parsed URL after its query is replaced: a
/// function of the two strings alone.
pub uninterp spec fn url_with_query(s: Seq<char>, q: Seq<char>) -> Seq<char>;

/// Relies on `url::Url`: `parse` accepts exactly the well-formed absolute
/// URLs, `set_query` replaces the query component, and `Display` writes the
/// WHATWG serialization, in which, when the URL carries no fragment and the
/// query holds only characters the serializer keeps verbatim, the text ends
/// with `?` followed by that query.
#[verifier::external_body]
fn url_replace_query(announce: &str, query: &str) -> (r: Option<String>)
    ensures
        r is Some <==> url_parse_ok(announce@),
        r matches Some(u) ==> u@ == url_with_query(announce@, query@),
        r matches Some(u) ==> ((!announce@.contains('#') && query_safe(query@)) ==> (u@.len()
            > query@.len() && u@.subrange(u@.len() - query@.len(), u@.len() as int) == query@
            && u@[u@.len() - query@.len() - 1] == '?')),
{
    match url::Url::parse(announce) {
        Ok(mut u) => {
            u.set_query(Some(query));
            Some(u.to_string())
        },
        Err(_) => None,
    }
}

/// Relies on `percent_encoding::percent_encode` with `NON_ALPHANUMERIC`:
/// ASCII letters and digits pass through, every other byte becomes `%XX`
/// with uppercase hexadecimal digits.
#[verifier::external_body]
fn percent_encode_all(bytes: &[u8]) -> (r: String)
    ensures
        r@ == pct_encoded(bytes@),
{
    percent_encoding::percent_encode(bytes, percent_encoding::NON_ALPHANUMERIC).to_string()
}

/// Builds the query component of a tracker announce request.
fn build_query(info_hash: &[u8], peer_id: &[u8], port: u16, left: u64) -> (r: String)
    ensures
        r@ == tracker_query(info_hash@, peer_id@, port, left as int),
{
    let mut q = String::new();
    q.append("info_hash=");
    let ih = percent_encode_all(info_hash);
    q.append(ih.as_str());
    q.append("&peer_id=");
    let pid = percent_encode_all(peer_id);
    q.append(pid.as_str());
    q.append("&port=");
    push_decimal_chars(&mut q, port as u64);
    q.append("&uploaded=0&downloaded=0&compact=1&left=");
    push_decimal_chars(&mut q, left);
    proof {
        assert(q@ =~= tracker_query(info_hash@, peer_id@, port, left as int));
    }
    q
}

/// Every character of a percent-encoded byte sequence is query-safe.
proof fn lemma_pct_encoded_safe(s: Seq<u8>)
    ensures
        forall|i: int| 0 <= i < pct_encoded(s).len() ==> is_query_char(#[trigger] pct_encoded(s)[i]),
    decreases s.len(),
{
    if s.len() > 0 {
        lemma_pct_encoded_safe(s.skip(1));
        assert forall|i: int| 0 <= i < pct_encoded(s).len() implies is_query_char(
            #[trigger] pct_encoded(s)[i],
        ) by {
            let head = pct_byte(s[0]);
            if i < head.len() {
                assert(pct_encoded(s)[i] == head[i]);
            } else {
                assert(pct_encoded(s)[i] == pct_encoded(s.skip(1))[i - head.len()]);
            }
        }
    }
}

/// Every character of a decimal notation is query-safe.
proof fn lemma_dec_chars_safe(n: int)
    ensures
        forall|i: int| 0 <= i < dec_chars(n).len() ==> is_query_char(#[trigger] dec_chars(n)[i]),
    decreases n,
{
    if n > 9 {
        lemma_dec_chars_safe(n / 10);
        assert forall|i: int| 0 <= i < dec_chars(n).len() implies is_query_char(
            #[trigger] dec_chars(n)[i],
        ) by {
            if i < dec_chars(n / 10).len() {
                assert(dec_chars(n)[i] == dec_chars(n / 10)[i]);
            } else {
                assert(dec_chars(n)[i] == hex_digit(n % 10));
            }
        }
    }
}

/// The whole tracker query is made of characters the URL serializer keeps
/// verbatim.
proof fn lemma_tracker_query_safe(info_hash: Seq<u8>, peer_id: Seq<u8>, port: u16, left: int)
    ensures
        query_safe(tracker_query(info_hash, peer_id, port, left)),
{
    reveal_strlit("info_hash=");
    reveal_strlit("&peer_id=");
    reveal_strlit("&port=");
    reveal_strlit("&uploaded=0&downloaded=0&compact=1&left=");
    lemma_pct_encoded_safe(info_hash);
    lemma_pct_encoded_safe(peer_id);
    lemma_dec_chars_safe(port as int);
    lemma_dec_chars_safe(left);
    let q = tracker_query(info_hash, peer_id, port, left);
    assert forall|i: int| 0 <= i < q.len() implies is_query_char(#[trigger] q[i]) by {
        let a1 = "info_hash="@;
        let a2 = a1 + pct_encoded(info_hash);
        let a3 = a2 + "&peer_id="@;
        let a4 = a3 + pct_encoded(peer_id);
        let a5 = a4 + "&port="@;
        let a6 = a5 + dec_chars(port as int);
        let a7 = a6 + "&uploaded=0&downloaded=0&compact=1&left="@;
        assert(q == a7 + dec_chars(left));
        if i < a1.len() {
            assert(q[i] == a1[i]);
        } else if i < a2.len() {
            assert(q[i] == pct_encoded(info_hash)[i - a1.len()]);
        } else if i < a3.len() {
            assert(q[i] == "&peer_id="@[i - a2.len()]);
        } else if i < a4.len() {
            assert(q[i] == pct_encoded(peer_id)[i - a3.len()]);
        } else if i < a5.len() {
            assert(q[i] == "&port="@[i - a4.len()]);
        } else if i < a6.len() {
            assert(q[i] == dec_chars(port as int)[i - a5.len()]);
        } else if i < a7.len() {
            assert(q[i] == "&uploaded=0&downloaded=0&compact=1&left="@[i - a6.len()]);
        } else {
            assert(q[i] == dec_chars(left)[i - a7.len()]);
        }
    }
}

/// A torrent descriptor, built once from a decoded document and immutable
/// thereafter.
#[derive(Debug, Clone, PartialEq, Eq, PartialOrd, Ord, Hash)]
pub struct TorrentFile {
    pub announce: String,
    pub info_hash: [u8; 20],
    pub piece_hashes: Vec<[u8; 20]>,
    pub piece_length: u64,
    pub length: u64,
    pub name: String,
}

impl TorrentFile {
    /// Builds the descriptor from a decoded document: derives the info hash
    /// from the canonical encoding and splits the piece hashes; fails with
    /// the offending length when the `pieces` blob is not a multiple of 20.
    pub fn try_from(value: BencodeTorrent) -> (r: Result<TorrentFile, ValidationError>)
        ensures
            value.info@.pieces.len() % 20 == 0 ==> (r matches Ok(t) && t.announce@
                == value.announce@ && t.info_hash@ == sha1_of(encode_info(value.info@))
                && t.piece_hashes@.len() == value.info@.pieces.len() / 20 && (forall|i: int|
                0 <= i < t.piece_hashes@.len() ==> #[trigger] t.piece_hashes@[i]@
                    == value.info@.pieces.subrange(20 * i, 20 * i + 20)) && t.piece_length
                == value.info.piece_length && t.length == value.info.length && t.name@
                == value.info.name@),
            value.info@.pieces.len() % 20 != 0 ==> r == Err::<TorrentFile, ValidationError>(
                ValidationError::MalformedPieceLength(value.info@.pieces.len() as u64),
            ),
    {
        let info_hash = value.info.hash();
        let piece_hashes = match value.info.split_pieces_hashes() {
            Ok(v) => v,
            Err(e) => {
                return Err(e);
            },
        };
        Ok(
            TorrentFile {
                announce: value.announce,
                info_hash,
                piece_hashes,
                piece_length: value.info.piece_length,
                length: value.info.length,
                name: value.info.name,
            },
        )
    }

    /// Builds the tracker announce URL: the announce string parsed as a URL
    /// with its query replaced by the fixed-order parameter list, the two
    /// 20-byte fields percent-encoded byte by byte.
    pub fn build_tracker_url(&self, peer_id: [u8; 20], port: u16) -> (r: Result<
        String,
        InvalidAnnounceUrl,
    >)
        ensures
            r is Ok <==> url_parse_ok(self.announce@),
            r matches Ok(u) ==> u@ == url_with_query(
                self.announce@,
                tracker_query(self.info_hash@, peer_id@, port, self.length as int),
            ),
            r matches Ok(u) ==> (!self.announce@.contains('#') ==> ({
                let q = tracker_query(self.info_hash@, peer_id@, port, self.length as int);
                u@.len() > q.len() && u@.subrange(u@.len() - q.len(), u@.len() as int) == q
                    && u@[u@.len() - q.len() - 1] == '?'
            })),
            r matches Err(e) ==> e.0@ == self.announce@,
    {
        let query = build_query(
            self.info_hash.as_slice(),
            peer_id.as_slice(),
            port,
            self.length,
        );
        proof {
            lemma_tracker_query_safe(self.info_hash@, peer_id@, port, self.length as int);
        }
        match url_replace_query(self.announce.as_str(), query.as_str()) {
            Some(u) => Ok(u),
            None => Err(InvalidAnnounceUrl(self.announce.clone())),
        }
    }
}

impl InvalidAnnounceUrl {
    /// A diagnostic line naming the string that was rejected.
    pub fn message(&self) -> (r: String)
        ensures
            r@ == "Invalid announce URL: "@ + self.0@,
    {
        let mut m = String::new();
        m.append("Invalid announce URL: ");
        m.append(self.0.as_str());
        m
    }
}

} // verus!
