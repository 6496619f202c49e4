//! The KRPC message model: message kinds, typed message shapes, and the
//! bencoded wire codec.

use vstd::prelude::*;
use crate::id::Id;

verus! {

/// Type of KRPC message, as carried in the `y` field of the envelope.
#[derive(Clone, Copy, Debug)]
pub enum Kind<'a> {
    Query,
    Response,
    Error,
    Unknown(&'a str),
}

impl<'a> Kind<'a> {
    /// The wire value of the `y` field for this kind.
    pub fn val(&self) -> (r: &'a str)
        ensures
            self is Query ==> r@ == "q"@,
            self is Response ==> r@ == "r"@,
            self is Error ==> r@ == "e"@,
            *self matches Kind::Unknown(v) ==> r == v,
    {
        match self {
            Kind::Query => "q",
            Kind::Response => "r",
            Kind::Error => "e",
            Kind::Unknown(v) => v,
        }
    }
}

/// Fields may be at most this long on the wire, so that every length fits
/// in nine decimal digits.
pub const MAX_FIELD_LEN: usize = 999999999;

/// The body of a KRPC message: a query with its method name and typed
/// arguments, a response with the queried node's id and an optional
/// compact node list, or an error with its code and text.
#[derive(Debug, Clone)]
pub enum MsgBody {
    Query { method: Vec<u8>, id: Id, target: Option<Id> },
    Resp { id: Id, nodes: Option<Vec<u8>> },
    Error { code: i64, msg: Vec<u8> },
}

/// A KRPC message: its wire transaction-id field, the optional client
/// version tag, and the typed body.
#[derive(Debug, Clone)]
pub struct KrpcMsg {
    pub t: Vec<u8>,
    pub v: Option<Vec<u8>>,
    pub body: MsgBody,
}

/// The mathematical value of a message body.
pub enum BodyView {
    Query { method: Seq<u8>, id: Id, target: Option<Id> },
    Resp { id: Id, nodes: Option<Seq<u8>> },
    Error { code: int, msg: Seq<u8> },
}

/// The mathematical value of a message.
pub struct MsgView {
    pub t: Seq<u8>,
    pub v: Option<Seq<u8>>,
    pub body: BodyView,
}

impl View for MsgBody {
    type V = BodyView;

    open spec fn view(&self) -> BodyView {
        match self {
            MsgBody::Query { method, id, target } => BodyView::Query {
                method: method@,
                id: *id,
                target: *target,
            },
            MsgBody::Resp { id, nodes } => BodyView::Resp {
                id: *id,
                nodes: match nodes {
                    Some(n) => Some(n@),
                    None => None,
                },
            },
            MsgBody::Error { code, msg } => BodyView::Error { code: *code as int, msg: msg@ },
        }
    }
}

impl View for KrpcMsg {
    type V = MsgView;

    open spec fn view(&self) -> MsgView {
        MsgView {
            t: self.t@,
            v: match &self.v {
                Some(vv) => Some(vv@),
                None => None,
            },
            body: self.body@,
        }
    }
}

impl MsgView {
    /// Bounds under which the message can be put on the wire.
    pub open spec fn wf(self) -> bool {
        &&& self.t.len() <= MAX_FIELD_LEN
        &&& match self.v {
            Some(vv) => vv.len() <= MAX_FIELD_LEN,
            None => true,
        }
        &&& match self.body {
            BodyView::Query { method, .. } => method.len() <= MAX_FIELD_LEN,
            BodyView::Resp { nodes, .. } => match nodes {
                Some(n) => n.len() <= MAX_FIELD_LEN,
                None => true,
            },
            BodyView::Error { code, msg } => -(MAX_FIELD_LEN as int) <= code <= MAX_FIELD_LEN as int
                && msg.len() <= MAX_FIELD_LEN,
        }
    }
}

/// Whether a byte is an ASCII decimal digit.
pub open spec fn is_digit(b: u8) -> bool {
    48 <= b <= 57
}

/// The decimal digits of a number, most significant first.
pub open spec fn dec_digits(n: nat) -> Seq<u8>
    decreases n,
{
    if n < 10 {
        seq![(48 + n) as u8]
    } else {
        dec_digits(n / 10).push((48 + (n % 10)) as u8)
    }
}

/// The bencoding of a byte string: its decimal length, a colon, the bytes.
pub open spec fn enc_bstr(b: Seq<u8>) -> Seq<u8> {
    dec_digits(b.len()) + seq![58u8] + b
}

/// The bencoding of a node id: a 20-byte string.
pub open spec fn enc_id(id: Id) -> Seq<u8> {
    enc_bstr(crate::id::id_bytes(id))
}

/// The bencoding of an integer: `i`, an optional minus sign, the decimal
/// digits, `e`.
pub open spec fn enc_int(c: int) -> Seq<u8> {
    seq![105u8] + (if c < 0 {
        seq![45u8] + dec_digits((-c) as nat)
    } else {
        dec_digits(c as nat)
    }) + seq![101u8]
}

/// The optional `v` entry of the envelope.
pub open spec fn enc_opt_v(v: Option<Seq<u8>>) -> Seq<u8> {
    match v {
        Some(vv) => enc_bstr(seq![118u8]) + enc_bstr(vv),
        None => Seq::empty(),
    }
}

/// The envelope tail: the `t` entry, the optional `v` entry, the `y`
/// entry, and the final dictionary end.
pub open spec fn enc_tail(t: Seq<u8>, v: Option<Seq<u8>>, ykey: u8) -> Seq<u8> {
    enc_bstr(seq![116u8]) + enc_bstr(t) + enc_opt_v(v) + enc_bstr(seq![121u8]) + enc_bstr(
        seq![ykey],
    ) + seq![101u8]
}

/// The canonical bencoding of a message: a dictionary with its keys in
/// sorted order, holding exactly the fields of the wire format.
pub open spec fn spec_encode(m: MsgView) -> Seq<u8> {
    match m.body {
        BodyView::Query { method, id, target } => seq![100u8] + enc_bstr(seq![97u8]) + seq![100u8]
            + enc_bstr(seq![105u8, 100u8]) + enc_id(id) + (match target {
            Some(tg) => enc_bstr(seq![116u8, 97u8, 114u8, 103u8, 101u8, 116u8]) + enc_id(tg),
            None => Seq::empty(),
        }) + seq![101u8] + enc_bstr(seq![113u8]) + enc_bstr(method) + enc_tail(m.t, m.v, 113),
        BodyView::Resp { id, nodes } => seq![100u8] + enc_bstr(seq![114u8]) + seq![100u8]
            + enc_bstr(seq![105u8, 100u8]) + enc_id(id) + (match nodes {
            Some(n) => enc_bstr(seq![110u8, 111u8, 100u8, 101u8, 115u8]) + enc_bstr(n),
            None => Seq::empty(),
        }) + seq![101u8] + enc_tail(m.t, m.v, 114),
        BodyView::Error { code, msg } => seq![100u8] + enc_bstr(seq![101u8]) + seq![108u8] + enc_int(
            code,
        ) + enc_bstr(msg) + seq![101u8] + enc_tail(m.t, m.v, 101),
    }
}

/// Appends the decimal digits of `n`.
fn push_digits(n: usize, out: &mut Vec<u8>)
    ensures
        final(out)@ == old(out)@ + dec_digits(n as nat),
    decreases n,
{
    if n < 10 {
        out.push(48 + n as u8);
        proof {
            assert(out@ =~= old(out)@ + dec_digits(n as nat));
        }
    } else {
        push_digits(n / 10, out);
        out.push(48 + (n % 10) as u8);
        proof {
            assert(out@ =~= old(out)@ + dec_digits(n as nat));
        }
    }
}

/// Appends the bencoding of a byte string.
fn push_bstr(out: &mut Vec<u8>, b: &[u8])
    ensures
        final(out)@ == old(out)@ + enc_bstr(b@),
{
    push_digits(b.len(), out);
    out.push(58);
    out.extend_from_slice(b);
    proof {
        assert(out@ =~= old(out)@ + enc_bstr(b@));
    }
}

/// Appends the bencoding of a node id.
fn push_id(out: &mut Vec<u8>, id: &Id)
    ensures
        final(out)@ == old(out)@ + enc_id(*id),
{
    let bytes = id.to_be_bytes();
    push_bstr(out, bytes.as_slice());
}

/// Appends the bencoding of an integer.
fn push_int(out: &mut Vec<u8>, c: i64)
    ensures
        final(out)@ == old(out)@ + enc_int(c as int),
{
    out.push(105);
    if c < 0 {
        out.push(45);
        let neg: i128 = -(c as i128);
        let m: u64 = neg as u64;
        proof {
            assert(m as int == -(c as int));
        }
        push_digits_u64(m, out);
    } else {
        push_digits_u64(c as u64, out);
    }
    out.push(101);
    proof {
        assert(out@ =~= old(out)@ + enc_int(c as int));
    }
}

/// Appends the decimal digits of `n`.
fn push_digits_u64(n: u64, out: &mut Vec<u8>)
    ensures
        final(out)@ == old(out)@ + dec_digits(n as nat),
    decreases n,
{
    if n < 10 {
        out.push(48 + n as u8);
        proof {
            assert(out@ =~= old(out)@ + dec_digits(n as nat));
        }
    } else {
        push_digits_u64(n / 10, out);
        out.push(48 + (n % 10) as u8);
        proof {
            assert(out@ =~= old(out)@ + dec_digits(n as nat));
        }
    }
}

/// Appends the optional client-version entry.
fn push_opt_v(out: &mut Vec<u8>, v: &Option<Vec<u8>>)
    ensures
        final(out)@ == old(out)@ + enc_opt_v(
            match v {
                Some(vv) => Some(vv@),
                None => None,
            },
        ),
{
    match v {
        Some(vv) => {
            let key: [u8; 1] = [118];
            push_bstr(out, &key);
            proof {
                assert(key@ =~= seq![118u8]);
            }
            push_bstr(out, vv.as_slice());
            proof {
                assert(out@ =~= old(out)@ + enc_opt_v(Some(vv@)));
            }
        },
        None => {
            proof {
                assert(out@ =~= old(out)@ + enc_opt_v(None));
            }
        },
    }
}

/// Encodes a message into its canonical bencoded form.
#[verifier::rlimit(100)]
pub fn encode(m: &KrpcMsg) -> (r: Vec<u8>)
    ensures
        r@ == spec_encode(m@),
{
    let mut out: Vec<u8> = Vec::new();
    out.push(100);
    match &m.body {
        MsgBody::Query { method, id, target } => {
            let key_a: [u8; 1] = [97];
            let key_id: [u8; 2] = [105, 100];
            let key_target: [u8; 6] = [116, 97, 114, 103, 101, 116];
            let key_q: [u8; 1] = [113];
            let key_t: [u8; 1] = [116];
            let key_y: [u8; 1] = [121];
            proof {
                assert(key_a@ =~= seq![97u8]);
                assert(key_id@ =~= seq![105u8, 100u8]);
                assert(key_target@ =~= seq![116u8, 97u8, 114u8, 103u8, 101u8, 116u8]);
                assert(key_q@ =~= seq![113u8]);
                assert(key_t@ =~= seq![116u8]);
                assert(key_y@ =~= seq![121u8]);
            }
            push_bstr(&mut out, &key_a);
            out.push(100);
            push_bstr(&mut out, &key_id);
            push_id(&mut out, id);
            match target {
                Some(tg) => {
                    push_bstr(&mut out, &key_target);
                    push_id(&mut out, tg);
                },
                None => {},
            }
            out.push(101);
            push_bstr(&mut out, &key_q);
            push_bstr(&mut out, method.as_slice());
            push_bstr(&mut out, &key_t);
            push_bstr(&mut out, m.t.as_slice());
            push_opt_v(&mut out, &m.v);
            push_bstr(&mut out, &key_y);
            push_bstr(&mut out, &key_q);
            out.push(101);
            proof {
                assert(out@ =~= spec_encode(m@));
            }
        },
        MsgBody::Resp { id, nodes } => {
            let key_r: [u8; 1] = [114];
            let key_id: [u8; 2] = [105, 100];
            let key_nodes: [u8; 5] = [110, 111, 100, 101, 115];
            let key_t: [u8; 1] = [116];
            let key_y: [u8; 1] = [121];
            proof {
                assert(key_r@ =~= seq![114u8]);
                assert(key_id@ =~= seq![105u8, 100u8]);
                assert(key_nodes@ =~= seq![110u8, 111u8, 100u8, 101u8, 115u8]);
                assert(key_t@ =~= seq![116u8]);
                assert(key_y@ =~= seq![121u8]);
            }
            push_bstr(&mut out, &key_r);
            out.push(100);
            push_bstr(&mut out, &key_id);
            push_id(&mut out, id);
            match nodes {
                Some(n) => {
                    push_bstr(&mut out, &key_nodes);
                    push_bstr(&mut out, n.as_slice());
                },
                None => {},
            }
            out.push(101);
            push_bstr(&mut out, &key_t);
            push_bstr(&mut out, m.t.as_slice());
            push_opt_v(&mut out, &m.v);
            push_bstr(&mut out, &key_y);
            push_bstr(&mut out, &key_r);
            out.push(101);
            proof {
                assert(out@ =~= spec_encode(m@));
            }
        },
        MsgBody::Error { code, msg } => {
            let key_e: [u8; 1] = [101];
            let key_t: [u8; 1] = [116];
            let key_y: [u8; 1] = [121];
            proof {
                assert(key_e@ =~= seq![101u8]);
                assert(key_t@ =~= seq![116u8]);
                assert(key_y@ =~= seq![121u8]);
            }
            push_bstr(&mut out, &key_e);
            out.push(108);
            push_int(&mut out, *code);
            push_bstr(&mut out, msg.as_slice());
            out.push(101);
            push_bstr(&mut out, &key_t);
            push_bstr(&mut out, m.t.as_slice());
            push_opt_v(&mut out, &m.v);
            push_bstr(&mut out, &key_y);
            push_bstr(&mut out, &key_e);
            out.push(101);
            proof {
                assert(out@ =~= spec_encode(m@));
            }
        },
    }
    out
}

/// Powers of ten.
pub open spec fn pow10(k: nat) -> nat
    decreases k,
{
    if k == 0 {
        1
    } else {
        10 * pow10((k - 1) as nat)
    }
}

/// The position right after the run of decimal digits starting at `i`.
pub open spec fn digit_run_end(s: Seq<u8>, i: int) -> int
    decreases s.len() - i,
        when 0 <= i <= s.len()
{
    if i < s.len() && is_digit(s[i]) {
        digit_run_end(s, i + 1)
    } else {
        i
    }
}

/// The value of the decimal digits `s[i..j]`, the last digit least
/// significant.
pub open spec fn digits_value(s: Seq<u8>, i: int, j: int) -> nat
    decreases j - i,
        when i <= j
{
    if i >= j {
        0
    } else {
        digits_value(s, i, j - 1) * 10 + (if s[j - 1] >= 48 {
            (s[j - 1] - 48) as nat
        } else {
            0
        })
    }
}

/// Parses an unsigned decimal number at `i`: one to nine digits.
pub open spec fn parse_nat(s: Seq<u8>, i: int) -> Option<(nat, int)> {
    if 0 <= i <= s.len() {
        let j = digit_run_end(s, i);
        if j == i || j - i > 9 {
            None
        } else {
            Some((digits_value(s, i, j), j))
        }
    } else {
        None
    }
}

/// Parses one expected byte.
pub open spec fn expect_byte(s: Seq<u8>, i: int, b: u8) -> Option<int> {
    if 0 <= i < s.len() && s[i] == b {
        Some(i + 1)
    } else {
        None
    }
}

/// Parses a bencoded byte string at `i`.
pub open spec fn parse_bstr(s: Seq<u8>, i: int) -> Option<(Seq<u8>, int)> {
    match parse_nat(s, i) {
        None => None,
        Some((n, j)) => if j < s.len() && s[j] == 58 && j + 1 + n <= s.len() {
            Some((s.subrange(j + 1, j + 1 + n), j + 1 + n))
        } else {
            None
        },
    }
}

/// Parses a bencoded integer at `i`.
pub open spec fn parse_int(s: Seq<u8>, i: int) -> Option<(int, int)> {
    match expect_byte(s, i, 105) {
        None => None,
        Some(j0) => if j0 < s.len() && s[j0] == 45 {
            match parse_nat(s, j0 + 1) {
                None => None,
                Some((n, j)) => match expect_byte(s, j, 101) {
                    None => None,
                    Some(j2) => Some((-(n as int), j2)),
                },
            }
        } else {
            match parse_nat(s, j0) {
                None => None,
                Some((n, j)) => match expect_byte(s, j, 101) {
                    None => None,
                    Some(j2) => Some((n as int, j2)),
                },
            }
        },
    }
}

/// Compares two byte slices for equality.
fn bytes_eq(a: &[u8], b: &[u8]) -> (r: bool)
    ensures
        r == (a@ == b@),
{
    if a.len() != b.len() {
        proof {
            assert(a@.len() != b@.len());
        }
        return false;
    }
    let mut i: usize = 0;
    while i < a.len()
        invariant
            i <= a@.len(),
            a@.len() == b@.len(),
            forall|k: int| 0 <= k < i ==> a@[k] == b@[k],
        decreases a@.len() - i,
    {
        if a[i] != b[i] {
            return false;
        }
        i += 1;
    }
    proof {
        assert(a@ =~= b@);
    }
    true
}

/// Parses an unsigned decimal number: the executable mirror of
/// [`parse_nat`].
fn exec_parse_nat(s: &[u8], i: usize) -> (r: Option<(usize, usize)>)
    requires
        i <= s@.len(),
    ensures
        r is None ==> parse_nat(s@, i as int) is None,
        r matches Some((n, j)) ==> parse_nat(s@, i as int) == Some((n as nat, j as int)) && i <= j
            <= s@.len() && n <= MAX_FIELD_LEN,
{
    let mut j = i;
    while j < s.len() && 48 <= s[j] && s[j] <= 57
        invariant
            i <= j <= s@.len(),
            digit_run_end(s@, i as int) == digit_run_end(s@, j as int),
            forall|k: int| i <= k < j ==> is_digit(s@[k]),
        decreases s@.len() - j,
    {
        j += 1;
    }
    proof {
        assert(digit_run_end(s@, j as int) == j as int);
    }
    if j == i || j - i > 9 {
        return None;
    }
    let mut n: usize = 0;
    let mut k = i;
    proof {
        lemma_pow10_9();
    }
    while k < j
        invariant
            i <= k <= j <= s@.len(),
            i < j,
            j - i <= 9,
            digit_run_end(s@, i as int) == j as int,
            forall|x: int| i <= x < j ==> is_digit(s@[x]),
            n == digits_value(s@, i as int, k as int),
            n < pow10((k - i) as nat),
            pow10(9) == 1000000000,
        decreases j - k,
    {
        proof {
            assert(pow10(((k + 1) - i) as nat) == 10 * pow10((k - i) as nat));
            lemma_pow10_le((((k + 1) - i)) as nat, 9);
        }
        n = n * 10 + (s[k] - 48) as usize;
        k += 1;
    }
    proof {
        lemma_pow10_le((j - i) as nat, 9);
        assert(n <= MAX_FIELD_LEN);
        assert(parse_nat(s@, i as int) == Some((n as nat, j as int)));
    }
    Some((n, j))
}

/// `pow10(9)` written out.
proof fn lemma_pow10_9()
    ensures
        pow10(9) == 1000000000,
{
    reveal_with_fuel(pow10, 10);
}

/// Powers of ten grow with the exponent.
proof fn lemma_pow10_le(a: nat, b: nat)
    requires
        a <= b,
    ensures
        pow10(a) <= pow10(b),
    decreases b,
{
    if a < b {
        lemma_pow10_le(a, (b - 1) as nat);
        assert(pow10(b) == 10 * pow10((b - 1) as nat));
    }
}

/// Copies `s[a..b]` into a fresh vector.
fn copy_range(s: &[u8], a: usize, b: usize) -> (r: Vec<u8>)
    requires
        a <= b <= s@.len(),
    ensures
        r@ == s@.subrange(a as int, b as int),
{
    let mut r: Vec<u8> = Vec::new();
    let mut k = a;
    while k < b
        invariant
            a <= k <= b <= s@.len(),
            r@ == s@.subrange(a as int, k as int),
        decreases b - k,
    {
        r.push(s[k]);
        proof {
            assert(s@.subrange(a as int, k + 1) =~= s@.subrange(a as int, k as int).push(
                s@[k as int],
            ));
        }
        k += 1;
    }
    r
}

/// Parses a bencoded byte string: the executable mirror of
/// [`parse_bstr`].
fn exec_parse_bstr(s: &[u8], i: usize) -> (r: Option<(Vec<u8>, usize)>)
    requires
        i <= s@.len(),
    ensures
        r is None ==> parse_bstr(s@, i as int) is None,
        r matches Some((b, j)) ==> parse_bstr(s@, i as int) == Some((b@, j as int)) && j
            <= s@.len(),
{
    match exec_parse_nat(s, i) {
        None => None,
        Some((n, j)) => {
            if j < s.len() && s[j] == 58 {
                if n <= s.len() - (j + 1) {
                    let b = copy_range(s, j + 1, j + 1 + n);
                    Some((b, j + 1 + n))
                } else {
                    None
                }
            } else {
                None
            }
        },
    }
}

/// Parses a bencoded integer: the executable mirror of [`parse_int`].
fn exec_parse_int(s: &[u8], i: usize) -> (r: Option<(i64, usize)>)
    requires
        i <= s@.len(),
    ensures
        r is None ==> parse_int(s@, i as int) is None,
        r matches Some((c, j)) ==> parse_int(s@, i as int) == Some((c as int, j as int)) && j
            <= s@.len() && -(MAX_FIELD_LEN as int) <= c as int <= MAX_FIELD_LEN as int,
{
    if !(i < s.len() && s[i] == 105) {
        return None;
    }
    let j0 = i + 1;
    if j0 < s.len() && s[j0] == 45 {
        match exec_parse_nat(s, j0 + 1) {
            None => None,
            Some((n, j)) => {
                if j < s.len() && s[j] == 101 {
                    let c: i64 = -(n as i64);
                    Some((c, j + 1))
                } else {
                    None
                }
            },
        }
    } else {
        match exec_parse_nat(s, j0) {
            None => None,
            Some((n, j)) => {
                if j < s.len() && s[j] == 101 {
                    Some((n as i64, j + 1))
                } else {
                    None
                }
            },
        }
    }
}

/// The position after one well-formed bencode integer (`i`, an optional
/// minus sign, digits, `e`) starting at `i`.
pub open spec fn skip_int(s: Seq<u8>, i: int) -> Option<int> {
    let j0 = if i + 1 < s.len() && s[i + 1] == 45 {
        i + 2
    } else {
        i + 1
    };
    if j0 <= s.len() {
        let j = digit_run_end(s, j0);
        if j > j0 && j < s.len() && s[j] == 101 {
            Some(j + 1)
        } else {
            None
        }
    } else {
        None
    }
}

/// The position after one well-formed bencode value starting at `i`: an
/// integer, a byte string (its length capped at nine digits, far beyond
/// any datagram), a list, or a dictionary.
pub open spec fn skip_value(s: Seq<u8>, i: int) -> Option<int>
    decreases s.len() - i, 0int,
        when 0 <= i <= s.len()
{
    if i >= s.len() {
        None
    } else if s[i] == 105 {
        skip_int(s, i)
    } else if is_digit(s[i]) {
        match parse_nat(s, i) {
            Some((n, j)) => if j < s.len() && s[j] == 58 && j + 1 + n <= s.len() {
                Some(j + 1 + n)
            } else {
                None
            },
            None => None,
        }
    } else if s[i] == 108 {
        skip_items(s, i + 1)
    } else if s[i] == 100 {
        skip_entries(s, i + 1)
    } else {
        None
    }
}

/// The position after the remaining items of a list, including its `e`.
pub open spec fn skip_items(s: Seq<u8>, i: int) -> Option<int>
    decreases s.len() - i, 1int,
        when 0 <= i <= s.len()
{
    if i >= s.len() {
        None
    } else if s[i] == 101 {
        Some(i + 1)
    } else {
        match skip_value(s, i) {
            Some(j) => if i < j <= s.len() {
                skip_items(s, j)
            } else {
                None
            },
            None => None,
        }
    }
}

/// The position after the remaining entries of a dictionary, including
/// its `e`; every key must be a byte string.
pub open spec fn skip_entries(s: Seq<u8>, i: int) -> Option<int>
    decreases s.len() - i, 1int,
        when 0 <= i <= s.len()
{
    if i >= s.len() {
        None
    } else if s[i] == 101 {
        Some(i + 1)
    } else {
        match parse_bstr(s, i) {
            Some((_, j)) => if i < j <= s.len() {
                match skip_value(s, j) {
                    Some(j2) => if j < j2 <= s.len() {
                        skip_entries(s, j2)
                    } else {
                        None
                    },
                    None => None,
                }
            } else {
                None
            },
            None => None,
        }
    }
}

/// Whether the bytes are exactly one complete, well-formed bencode value.
pub open spec fn is_valid_bencode(s: Seq<u8>) -> bool {
    skip_value(s, 0) == Some(s.len() as int)
}

/// The fields collected while scanning a message dictionary; entries the
/// wire format does not model are skipped.
pub struct PartialMsg {
    pub t: Option<Seq<u8>>,
    pub v: Option<Seq<u8>>,
    pub y: Option<Seq<u8>>,
    pub method: Option<Seq<u8>>,
    pub a_id: Option<Id>,
    pub a_target: Option<Id>,
    pub r_id: Option<Id>,
    pub r_nodes: Option<Seq<u8>>,
    pub e_code: Option<int>,
    pub e_msg: Option<Seq<u8>>,
}

/// No field collected yet.
pub open spec fn empty_partial() -> PartialMsg {
    PartialMsg {
        t: None,
        v: None,
        y: None,
        method: None,
        a_id: None,
        a_target: None,
        r_id: None,
        r_nodes: None,
        e_code: None,
        e_msg: None,
    }
}

/// The first occurrence of a key wins; later duplicates are ignored.
pub open spec fn keep_or<T>(old: Option<T>, new: T) -> Option<T> {
    if old is Some {
        old
    } else {
        Some(new)
    }
}

/// Scans the entries of the `a` dictionary: `id` and `target` are read as
/// 20-byte ids, anything else is skipped.
pub open spec fn parse_args_entries(s: Seq<u8>, i: int, acc: PartialMsg) -> Option<
    (PartialMsg, int),
>
    decreases s.len() - i,
        when 0 <= i <= s.len()
{
    if i >= s.len() {
        None
    } else if s[i] == 101 {
        Some((acc, i + 1))
    } else {
        match parse_bstr(s, i) {
            None => None,
            Some((key, j)) => if !(i < j <= s.len()) {
                None
            } else if key == seq![105u8, 100u8] || key == seq![
                116u8,
                97u8,
                114u8,
                103u8,
                101u8,
                116u8,
            ] {
                match parse_bstr(s, j) {
                    None => None,
                    Some((val, j2)) => if !(j < j2 <= s.len()) {
                        None
                    } else {
                        let acc2 = if val.len() != 20 {
                            acc
                        } else if key == seq![105u8, 100u8] {
                            PartialMsg { a_id: keep_or(acc.a_id, crate::id::id_of_bytes(val)), ..acc }
                        } else {
                            PartialMsg {
                                a_target: keep_or(acc.a_target, crate::id::id_of_bytes(val)),
                                ..acc
                            }
                        };
                        parse_args_entries(s, j2, acc2)
                    },
                }
            } else {
                match skip_value(s, j) {
                    None => None,
                    Some(j2) => if !(j < j2 <= s.len()) {
                        None
                    } else {
                        parse_args_entries(s, j2, acc)
                    },
                }
            },
        }
    }
}

/// Scans the entries of the `r` dictionary: `id` is read as a 20-byte id,
/// `nodes` as a byte string, anything else is skipped.
pub open spec fn parse_vals_entries(s: Seq<u8>, i: int, acc: PartialMsg) -> Option<
    (PartialMsg, int),
>
    decreases s.len() - i,
        when 0 <= i <= s.len()
{
    if i >= s.len() {
        None
    } else if s[i] == 101 {
        Some((acc, i + 1))
    } else {
        match parse_bstr(s, i) {
            None => None,
            Some((key, j)) => if !(i < j <= s.len()) {
                None
            } else if key == seq![105u8, 100u8] || key == seq![110u8, 111u8, 100u8, 101u8, 115u8] {
                match parse_bstr(s, j) {
                    None => None,
                    Some((val, j2)) => if !(j < j2 <= s.len()) {
                        None
                    } else {
                        let acc2 = if key == seq![105u8, 100u8] {
                            if val.len() == 20 {
                                PartialMsg {
                                    r_id: keep_or(acc.r_id, crate::id::id_of_bytes(val)),
                                    ..acc
                                }
                            } else {
                                acc
                            }
                        } else {
                            PartialMsg { r_nodes: keep_or(acc.r_nodes, val), ..acc }
                        };
                        parse_vals_entries(s, j2, acc2)
                    },
                }
            } else {
                match skip_value(s, j) {
                    None => None,
                    Some(j2) => if !(j < j2 <= s.len()) {
                        None
                    } else {
                        parse_vals_entries(s, j2, acc)
                    },
                }
            },
        }
    }
}

/// Reads the `e` payload: a list led by the error code and text; any
/// further items are skipped.
pub open spec fn parse_err_list(s: Seq<u8>, i: int, acc: PartialMsg) -> Option<(PartialMsg, int)> {
    if 0 <= i < s.len() && s[i] == 108 {
        match parse_int(s, i + 1) {
            None => None,
            Some((code, j)) => if !(i + 1 < j <= s.len()) {
                None
            } else {
                match parse_bstr(s, j) {
                    None => None,
                    Some((msg, j2)) => if !(j < j2 <= s.len()) {
                        None
                    } else {
                        match skip_items(s, j2) {
                            None => None,
                            Some(j3) => if !(j2 < j3 <= s.len()) {
                                None
                            } else {
                                Some(
                                    (
                                        PartialMsg {
                                            e_code: keep_or(acc.e_code, code),
                                            e_msg: keep_or(acc.e_msg, msg),
                                            ..acc
                                        },
                                        j3,
                                    ),
                                )
                            },
                        }
                    },
                }
            },
        }
    } else {
        None
    }
}

/// Scans the entries of the envelope dictionary: the modeled keys are
/// read typed, every other entry is skipped.
pub open spec fn parse_msg_entries(s: Seq<u8>, i: int, acc: PartialMsg) -> Option<
    (PartialMsg, int),
>
    decreases s.len() - i,
        when 0 <= i <= s.len()
{
    if i >= s.len() {
        None
    } else if s[i] == 101 {
        Some((acc, i + 1))
    } else {
        match parse_bstr(s, i) {
            None => None,
            Some((key, j)) => if !(i < j <= s.len()) {
                None
            } else if key == seq![116u8] || key == seq![118u8] || key == seq![121u8] || key == seq![
                113u8,
            ] {
                match parse_bstr(s, j) {
                    None => None,
                    Some((val, j2)) => if !(j < j2 <= s.len()) {
                        None
                    } else {
                        let acc2 = if key == seq![116u8] {
                            PartialMsg { t: keep_or(acc.t, val), ..acc }
                        } else if key == seq![118u8] {
                            PartialMsg { v: keep_or(acc.v, val), ..acc }
                        } else if key == seq![121u8] {
                            PartialMsg { y: keep_or(acc.y, val), ..acc }
                        } else {
                            PartialMsg { method: keep_or(acc.method, val), ..acc }
                        };
                        parse_msg_entries(s, j2, acc2)
                    },
                }
            } else if key == seq![97u8] {
                if j < s.len() && s[j] == 100 {
                    match parse_args_entries(s, j + 1, acc) {
                        None => None,
                        Some((acc2, j2)) => if !(j < j2 <= s.len()) {
                            None
                        } else {
                            parse_msg_entries(s, j2, acc2)
                        },
                    }
                } else {
                    None
                }
            } else if key == seq![114u8] {
                if j < s.len() && s[j] == 100 {
                    match parse_vals_entries(s, j + 1, acc) {
                        None => None,
                        Some((acc2, j2)) => if !(j < j2 <= s.len()) {
                            None
                        } else {
                            parse_msg_entries(s, j2, acc2)
                        },
                    }
                } else {
                    None
                }
            } else if key == seq![101u8] {
                match parse_err_list(s, j, acc) {
                    None => None,
                    Some((acc2, j2)) => if !(j < j2 <= s.len()) {
                        None
                    } else {
                        parse_msg_entries(s, j2, acc2)
                    },
                }
            } else {
                match skip_value(s, j) {
                    None => None,
                    Some(j2) => if !(j < j2 <= s.len()) {
                        None
                    } else {
                        parse_msg_entries(s, j2, acc)
                    },
                }
            },
        }
    }
}

/// The message assembled from the collected fields: the `y` value picks
/// the shape, and the fields the shape requires must have been seen.
pub open spec fn assemble(acc: PartialMsg) -> Option<MsgView> {
    match (acc.t, acc.y) {
        (Some(t), Some(y)) => if y == seq![113u8] {
            match (acc.method, acc.a_id) {
                (Some(method), Some(id)) => Some(
                    MsgView { t, v: acc.v, body: BodyView::Query { method, id, target: acc.a_target } },
                ),
                _ => None,
            }
        } else if y == seq![114u8] {
            match acc.r_id {
                Some(id) => Some(
                    MsgView { t, v: acc.v, body: BodyView::Resp { id, nodes: acc.r_nodes } },
                ),
                None => None,
            }
        } else if y == seq![101u8] {
            match (acc.e_code, acc.e_msg) {
                (Some(code), Some(msg)) => Some(
                    MsgView { t, v: acc.v, body: BodyView::Error { code, msg } },
                ),
                _ => None,
            }
        } else {
            None
        },
        _ => None,
    }
}

/// Parses a whole datagram: a bencoded dictionary whose modeled entries
/// form a message of the wire format; unmodeled entries are skipped.
pub open spec fn spec_decode(s: Seq<u8>) -> Option<MsgView> {
    if s.len() > 0 && s[0] == 100 {
        match parse_msg_entries(s, 1, empty_partial()) {
            Some((acc, end)) => if end == s.len() {
                assemble(acc)
            } else {
                None
            },
            None => None,
        }
    } else {
        None
    }
}

/// The executable mirror of [`skip_int`].
fn exec_skip_int(s: &[u8], i: usize) -> (r: Option<usize>)
    requires
        i < s@.len(),
    ensures
        r is None ==> skip_int(s@, i as int) is None,
        r matches Some(j) ==> skip_int(s@, i as int) == Some(j as int) && i < j <= s@.len(),
{
    let n = s.len();
    let j0 = if i + 1 < n && s[i + 1] == 45 {
        i + 2
    } else {
        i + 1
    };
    if j0 > n {
        return None;
    }
    let mut j = j0;
    while j < s.len() && 48 <= s[j] && s[j] <= 57
        invariant
            j0 <= j <= s@.len(),
            digit_run_end(s@, j0 as int) == digit_run_end(s@, j as int),
        decreases s@.len() - j,
    {
        j += 1;
    }
    proof {
        assert(digit_run_end(s@, j as int) == j as int);
    }
    if j > j0 && j < s.len() && s[j] == 101 {
        Some(j + 1)
    } else {
        None
    }
}

/// The executable mirror of [`skip_value`].
fn exec_skip_value(s: &[u8], i: usize) -> (r: Option<usize>)
    requires
        i <= s@.len(),
    ensures
        r is None ==> skip_value(s@, i as int) is None,
        r matches Some(j) ==> skip_value(s@, i as int) == Some(j as int) && i < j <= s@.len(),
    decreases s@.len() - i, 0int,
{
    if i >= s.len() {
        return None;
    }
    if s[i] == 105 {
        exec_skip_int(s, i)
    } else if 48 <= s[i] && s[i] <= 57 {
        match exec_parse_nat(s, i) {
            Some((n, j)) => {
                if j < s.len() && s[j] == 58 && n <= s.len() - (j + 1) {
                    Some(j + 1 + n)
                } else {
                    None
                }
            },
            None => None,
        }
    } else if s[i] == 108 {
        exec_skip_items(s, i + 1)
    } else if s[i] == 100 {
        exec_skip_entries(s, i + 1)
    } else {
        None
    }
}

/// The executable mirror of [`skip_items`].
fn exec_skip_items(s: &[u8], i: usize) -> (r: Option<usize>)
    requires
        i <= s@.len(),
    ensures
        r is None ==> skip_items(s@, i as int) is None,
        r matches Some(j) ==> skip_items(s@, i as int) == Some(j as int) && i < j <= s@.len(),
    decreases s@.len() - i, 1int,
{
    if i >= s.len() {
        return None;
    }
    if s[i] == 101 {
        return Some(i + 1);
    }
    match exec_skip_value(s, i) {
        Some(j) => exec_skip_items(s, j),
        None => None,
    }
}

/// The executable mirror of [`skip_entries`].
fn exec_skip_entries(s: &[u8], i: usize) -> (r: Option<usize>)
    requires
        i <= s@.len(),
    ensures
        r is None ==> skip_entries(s@, i as int) is None,
        r matches Some(j) ==> skip_entries(s@, i as int) == Some(j as int) && i < j <= s@.len(),
    decreases s@.len() - i, 1int,
{
    if i >= s.len() {
        return None;
    }
    if s[i] == 101 {
        return Some(i + 1);
    }
    match exec_parse_bstr(s, i) {
        Some((_, j)) => {
            if !(i < j) {
                return None;
            }
            match exec_skip_value(s, j) {
                Some(j2) => exec_skip_entries(s, j2),
                None => None,
            }
        },
        None => None,
    }
}

/// Whether the bytes are exactly one complete, well-formed bencode value.
pub fn is_valid(bytes: &[u8]) -> (r: bool)
    ensures
        r == is_valid_bencode(bytes@),
{
    match exec_skip_value(bytes, 0) {
        Some(j) => j == bytes.len(),
        None => false,
    }
}

/// The fields collected while scanning a message dictionary, as
/// executable values.
struct Partial {
    t: Option<Vec<u8>>,
    v: Option<Vec<u8>>,
    y: Option<Vec<u8>>,
    method: Option<Vec<u8>>,
    a_id: Option<Id>,
    a_target: Option<Id>,
    r_id: Option<Id>,
    r_nodes: Option<Vec<u8>>,
    e_code: Option<i64>,
    e_msg: Option<Vec<u8>>,
}

impl View for Partial {
    type V = PartialMsg;

    closed spec fn view(&self) -> PartialMsg {
        PartialMsg {
            t: match &self.t {
                Some(b) => Some(b@),
                None => None,
            },
            v: match &self.v {
                Some(b) => Some(b@),
                None => None,
            },
            y: match &self.y {
                Some(b) => Some(b@),
                None => None,
            },
            method: match &self.method {
                Some(b) => Some(b@),
                None => None,
            },
            a_id: self.a_id,
            a_target: self.a_target,
            r_id: self.r_id,
            r_nodes: match &self.r_nodes {
                Some(b) => Some(b@),
                None => None,
            },
            e_code: match self.e_code {
                Some(c) => Some(c as int),
                None => None,
            },
            e_msg: match &self.e_msg {
                Some(b) => Some(b@),
                None => None,
            },
        }
    }
}

/// The executable mirror of [`parse_args_entries`].
fn exec_parse_args(s: &[u8], start: usize, acc: Partial) -> (r: Option<(Partial, usize)>)
    requires
        start <= s@.len(),
    ensures
        r is None ==> parse_args_entries(s@, start as int, acc@) is None,
        r matches Some((acc2, j)) ==> parse_args_entries(s@, start as int, acc@) == Some(
            (acc2@, j as int),
        ) && j <= s@.len(),
{
    let mut i = start;
    let mut cur = acc;
    loop
        invariant
            i <= s@.len(),
            parse_args_entries(s@, start as int, acc@) == parse_args_entries(s@, i as int, cur@),
        decreases s@.len() - i,
    {
        let ghost i0 = i as int;
        let ghost cur0 = cur@;
        let key_id: [u8; 2] = [105, 100];
        let key_target: [u8; 6] = [116, 97, 114, 103, 101, 116];
        proof {
            assert(key_id@ =~= seq![105u8, 100u8]);
            assert(key_target@ =~= seq![116u8, 97u8, 114u8, 103u8, 101u8, 116u8]);
        }
        if i >= s.len() {
            return None;
        }
        if s[i] == 101 {
            return Some((cur, i + 1));
        }
        let (key, j) = match exec_parse_bstr(s, i) {
            None => {
                return None;
            },
            Some(kj) => kj,
        };
        if !(i < j) {
            return None;
        }
        if bytes_eq(key.as_slice(), &key_id) || bytes_eq(key.as_slice(), &key_target) {
            let (val, j2) = match exec_parse_bstr(s, j) {
                None => {
                    return None;
                },
                Some(vj) => vj,
            };
            if !(j < j2) {
                return None;
            }
            if val.len() == 20 {
                let parsed = Id::from_be_bytes(val.as_slice());
                if bytes_eq(key.as_slice(), &key_id) {
                    if cur.a_id.is_none() {
                        cur.a_id = Some(parsed);
                    }
                } else {
                    if cur.a_target.is_none() {
                        cur.a_target = Some(parsed);
                    }
                }
            }
            proof {
                let acc2 = if val@.len() != 20 {
                    cur0
                } else if key@ == seq![105u8, 100u8] {
                    PartialMsg { a_id: keep_or(cur0.a_id, crate::id::id_of_bytes(val@)), ..cur0 }
                } else {
                    PartialMsg {
                        a_target: keep_or(cur0.a_target, crate::id::id_of_bytes(val@)),
                        ..cur0
                    }
                };
                assert(cur@ == acc2);
                assert(parse_args_entries(s@, i0, cur0) == parse_args_entries(s@, j2 as int, acc2));
            }
            i = j2;
        } else {
            let j2 = match exec_skip_value(s, j) {
                None => {
                    return None;
                },
                Some(j2) => j2,
            };
            proof {
                assert(parse_args_entries(s@, i0, cur0) == parse_args_entries(s@, j2 as int, cur0));
            }
            i = j2;
        }
    }
}

/// The executable mirror of [`parse_vals_entries`].
fn exec_parse_vals(s: &[u8], start: usize, acc: Partial) -> (r: Option<(Partial, usize)>)
    requires
        start <= s@.len(),
    ensures
        r is None ==> parse_vals_entries(s@, start as int, acc@) is None,
        r matches Some((acc2, j)) ==> parse_vals_entries(s@, start as int, acc@) == Some(
            (acc2@, j as int),
        ) && j <= s@.len(),
{
    let mut i = start;
    let mut cur = acc;
    loop
        invariant
            i <= s@.len(),
            parse_vals_entries(s@, start as int, acc@) == parse_vals_entries(s@, i as int, cur@),
        decreases s@.len() - i,
    {
        let ghost i0 = i as int;
        let ghost cur0 = cur@;
        let key_id: [u8; 2] = [105, 100];
        let key_nodes: [u8; 5] = [110, 111, 100, 101, 115];
        proof {
            assert(key_id@ =~= seq![105u8, 100u8]);
            assert(key_nodes@ =~= seq![110u8, 111u8, 100u8, 101u8, 115u8]);
        }
        if i >= s.len() {
            return None;
        }
        if s[i] == 101 {
            return Some((cur, i + 1));
        }
        let (key, j) = match exec_parse_bstr(s, i) {
            None => {
                return None;
            },
            Some(kj) => kj,
        };
        if !(i < j) {
            return None;
        }
        if bytes_eq(key.as_slice(), &key_id) || bytes_eq(key.as_slice(), &key_nodes) {
            let (val, j2) = match exec_parse_bstr(s, j) {
                None => {
                    return None;
                },
                Some(vj) => vj,
            };
            if !(j < j2) {
                return None;
            }
            if bytes_eq(key.as_slice(), &key_id) {
                if val.len() == 20 {
                    let parsed = Id::from_be_bytes(val.as_slice());
                    if cur.r_id.is_none() {
                        cur.r_id = Some(parsed);
                    }
                }
            } else {
                if cur.r_nodes.is_none() {
                    cur.r_nodes = Some(val);
                }
            }
            proof {
                let acc2 = if key@ == seq![105u8, 100u8] {
                    if val@.len() == 20 {
                        PartialMsg {
                            r_id: keep_or(cur0.r_id, crate::id::id_of_bytes(val@)),
                            ..cur0
                        }
                    } else {
                        cur0
                    }
                } else {
                    PartialMsg { r_nodes: keep_or(cur0.r_nodes, val@), ..cur0 }
                };
                assert(cur@ == acc2);
                assert(parse_vals_entries(s@, i0, cur0) == parse_vals_entries(s@, j2 as int, acc2));
            }
            i = j2;
        } else {
            let j2 = match exec_skip_value(s, j) {
                None => {
                    return None;
                },
                Some(j2) => j2,
            };
            proof {
                assert(parse_vals_entries(s@, i0, cur0) == parse_vals_entries(s@, j2 as int, cur0));
            }
            i = j2;
        }
    }
}

/// The executable mirror of [`parse_err_list`].
fn exec_parse_err(s: &[u8], i: usize, acc: Partial) -> (r: Option<(Partial, usize)>)
    requires
        i <= s@.len(),
    ensures
        r is None ==> parse_err_list(s@, i as int, acc@) is None,
        r matches Some((acc2, j)) ==> parse_err_list(s@, i as int, acc@) == Some((acc2@, j as int))
            && j <= s@.len(),
{
    if !(i < s.len() && s[i] == 108) {
        return None;
    }
    let mut cur = acc;
    let (code, j) = match exec_parse_int(s, i + 1) {
        None => {
            return None;
        },
        Some(cj) => cj,
    };
    if !(i + 1 < j) {
        return None;
    }
    let (msg, j2) = match exec_parse_bstr(s, j) {
        None => {
            return None;
        },
        Some(mj) => mj,
    };
    if !(j < j2) {
        return None;
    }
    let j3 = match exec_skip_items(s, j2) {
        None => {
            return None;
        },
        Some(j3) => j3,
    };
    if cur.e_code.is_none() {
        cur.e_code = Some(code);
    }
    if cur.e_msg.is_none() {
        cur.e_msg = Some(msg);
    }
    proof {
        assert(cur@ == (PartialMsg {
            e_code: keep_or(acc@.e_code, code as int),
            e_msg: keep_or(acc@.e_msg, msg@),
            ..acc@
        }));
    }
    Some((cur, j3))
}

/// The executable mirror of [`parse_msg_entries`].
#[verifier::rlimit(100)]
#[verifier::spinoff_prover]
fn exec_parse_msg(s: &[u8], start: usize, acc: Partial) -> (r: Option<(Partial, usize)>)
    requires
        start <= s@.len(),
    ensures
        r is None ==> parse_msg_entries(s@, start as int, acc@) is None,
        r matches Some((acc2, j)) ==> parse_msg_entries(s@, start as int, acc@) == Some(
            (acc2@, j as int),
        ) && j <= s@.len(),
{
    let mut i = start;
    let mut cur = acc;
    loop
        invariant
            i <= s@.len(),
            parse_msg_entries(s@, start as int, acc@) == parse_msg_entries(s@, i as int, cur@),
        decreases s@.len() - i,
    {
        let ghost i0 = i as int;
        let ghost cur0 = cur@;
        let key_t: [u8; 1] = [116];
        let key_v: [u8; 1] = [118];
        let key_y: [u8; 1] = [121];
        let key_q: [u8; 1] = [113];
        let key_a: [u8; 1] = [97];
        let key_r: [u8; 1] = [114];
        let key_e: [u8; 1] = [101];
        proof {
            assert(key_t@ =~= seq![116u8]);
            assert(key_v@ =~= seq![118u8]);
            assert(key_y@ =~= seq![121u8]);
            assert(key_q@ =~= seq![113u8]);
            assert(key_a@ =~= seq![97u8]);
            assert(key_r@ =~= seq![114u8]);
            assert(key_e@ =~= seq![101u8]);
        }
        if i >= s.len() {
            return None;
        }
        if s[i] == 101 {
            return Some((cur, i + 1));
        }
        let (key, j) = match exec_parse_bstr(s, i) {
            None => {
                return None;
            },
            Some(kj) => kj,
        };
        if !(i < j) {
            return None;
        }
        let is_t = bytes_eq(key.as_slice(), &key_t);
        let is_v = bytes_eq(key.as_slice(), &key_v);
        let is_y = bytes_eq(key.as_slice(), &key_y);
        let is_q = bytes_eq(key.as_slice(), &key_q);
        if is_t || is_v || is_y || is_q {
            let (val, j2) = match exec_parse_bstr(s, j) {
                None => {
                    return None;
                },
                Some(vj) => vj,
            };
            if !(j < j2) {
                return None;
            }
            if is_t {
                if cur.t.is_none() {
                    cur.t = Some(val);
                }
            } else if is_v {
                if cur.v.is_none() {
                    cur.v = Some(val);
                }
            } else if is_y {
                if cur.y.is_none() {
                    cur.y = Some(val);
                }
            } else {
                if cur.method.is_none() {
                    cur.method = Some(val);
                }
            }
            proof {
                let acc2 = if key@ == seq![116u8] {
                    PartialMsg { t: keep_or(cur0.t, val@), ..cur0 }
                } else if key@ == seq![118u8] {
                    PartialMsg { v: keep_or(cur0.v, val@), ..cur0 }
                } else if key@ == seq![121u8] {
                    PartialMsg { y: keep_or(cur0.y, val@), ..cur0 }
                } else {
                    PartialMsg { method: keep_or(cur0.method, val@), ..cur0 }
                };
                assert(cur@ == acc2);
                assert(parse_msg_entries(s@, i0, cur0) == parse_msg_entries(s@, j2 as int, acc2));
            }
            i = j2;
        } else if bytes_eq(key.as_slice(), &key_a) {
            if !(j < s.len() && s[j] == 100) {
                return None;
            }
            let (acc2, j2) = match exec_parse_args(s, j + 1, cur) {
                None => {
                    return None;
                },
                Some(aj) => aj,
            };
            if !(j < j2) {
                return None;
            }
            cur = acc2;
            proof {
                assert(parse_msg_entries(s@, i0, cur0) == parse_msg_entries(s@, j2 as int, cur@));
            }
            i = j2;
        } else if bytes_eq(key.as_slice(), &key_r) {
            if !(j < s.len() && s[j] == 100) {
                return None;
            }
            let (acc2, j2) = match exec_parse_vals(s, j + 1, cur) {
                None => {
                    return None;
                },
                Some(vj) => vj,
            };
            if !(j < j2) {
                return None;
            }
            cur = acc2;
            proof {
                assert(parse_msg_entries(s@, i0, cur0) == parse_msg_entries(s@, j2 as int, cur@));
            }
            i = j2;
        } else if bytes_eq(key.as_slice(), &key_e) {
            let (acc2, j2) = match exec_parse_err(s, j, cur) {
                None => {
                    return None;
                },
                Some(ej) => ej,
            };
            if !(j < j2) {
                return None;
            }
            cur = acc2;
            proof {
                assert(parse_msg_entries(s@, i0, cur0) == parse_msg_entries(s@, j2 as int, cur@));
            }
            i = j2;
        } else {
            let j2 = match exec_skip_value(s, j) {
                None => {
                    return None;
                },
                Some(j2) => j2,
            };
            proof {
                assert(parse_msg_entries(s@, i0, cur0) == parse_msg_entries(s@, j2 as int, cur0));
            }
            i = j2;
        }
    }
}

/// Decodes a datagram into a message; fails exactly when the bytes are
/// not a bencoded dictionary whose modeled entries form a message of the
/// wire format. Entries the format does not model are skipped, so foreign
/// additions — extra query arguments, extra response values — do not
/// reject a message.
pub fn decode(bytes: &[u8]) -> (r: Option<KrpcMsg>)
    ensures
        r is Some <==> spec_decode(bytes@) is Some,
        r matches Some(m) ==> spec_decode(bytes@) == Some(m@),
{
    if !(bytes.len() > 0 && bytes[0] == 100) {
        return None;
    }
    let acc0 = Partial {
        t: None,
        v: None,
        y: None,
        method: None,
        a_id: None,
        a_target: None,
        r_id: None,
        r_nodes: None,
        e_code: None,
        e_msg: None,
    };
    proof {
        assert(acc0@ == empty_partial());
    }
    let (acc, end) = match exec_parse_msg(bytes, 1, acc0) {
        None => {
            return None;
        },
        Some(aj) => aj,
    };
    if end != bytes.len() {
        return None;
    }
    let yq: [u8; 1] = [113];
    let yr: [u8; 1] = [114];
    let ye: [u8; 1] = [101];
    proof {
        assert(yq@ =~= seq![113u8]);
        assert(yr@ =~= seq![114u8]);
        assert(ye@ =~= seq![101u8]);
    }
    let t = match acc.t {
        None => {
            return None;
        },
        Some(t) => t,
    };
    let y = match acc.y {
        None => {
            return None;
        },
        Some(y) => y,
    };
    if bytes_eq(y.as_slice(), &yq) {
        match (acc.method, acc.a_id) {
            (Some(method), Some(id)) => Some(
                KrpcMsg { t, v: acc.v, body: MsgBody::Query { method, id, target: acc.a_target } },
            ),
            _ => None,
        }
    } else if bytes_eq(y.as_slice(), &yr) {
        match acc.r_id {
            Some(id) => Some(
                KrpcMsg { t, v: acc.v, body: MsgBody::Resp { id, nodes: acc.r_nodes } },
            ),
            None => None,
        }
    } else if bytes_eq(y.as_slice(), &ye) {
        match (acc.e_code, acc.e_msg) {
            (Some(code), Some(msg)) => Some(
                KrpcMsg { t, v: acc.v, body: MsgBody::Error { code, msg } },
            ),
            _ => None,
        }
    } else {
        None
    }
}

/// Every character of a rendered decimal number is a digit.
proof fn lemma_dec_digits_are_digits(n: nat)
    ensures
        forall|k: int| 0 <= k < dec_digits(n).len() ==> is_digit(#[trigger] dec_digits(n)[k]),
    decreases n,
{
    if n < 10 {
        assert(dec_digits(n)[0] == (48 + n) as u8);
    } else {
        lemma_dec_digits_are_digits(n / 10);
        let d0 = dec_digits(n / 10);
        let d = dec_digits(n);
        assert(d == d0.push((48 + (n % 10)) as u8));
        assert forall|k: int| 0 <= k < d.len() implies is_digit(d[k]) by {
            if k < d0.len() {
                assert(d[k] == d0[k]);
            } else {
                assert(d[k] == (48 + (n % 10)) as u8);
            }
        }
    }
}

/// A number below `pow10(k)` renders in at most `k` digits.
proof fn lemma_dec_digits_len(n: nat, k: nat)
    requires
        n < pow10(k),
        k >= 1,
    ensures
        1 <= dec_digits(n).len() <= k,
    decreases n,
{
    if n >= 10 {
        assert(pow10(k) == 10 * pow10((k - 1) as nat));
        lemma_dec_digits_len(n / 10, (k - 1) as nat);
    }
}

/// A run of `len` digits followed by a non-digit ends exactly after them.
proof fn lemma_digit_run(s: Seq<u8>, i: int, len: int)
    requires
        0 <= i,
        0 <= len,
        i + len <= s.len(),
        forall|k: int| i <= k < i + len ==> is_digit(#[trigger] s[k]),
        i + len == s.len() || !is_digit(s[i + len]),
    ensures
        digit_run_end(s, i) == i + len,
    decreases len,
{
    if len > 0 {
        lemma_digit_run(s, i + 1, len - 1);
    }
}

/// Digits that spell a number evaluate back to it.
proof fn lemma_digits_value_of_dec(s: Seq<u8>, i: int, n: nat)
    requires
        0 <= i,
        i + dec_digits(n).len() <= s.len(),
        forall|k: int| 0 <= k < dec_digits(n).len() ==> s[i + k] == #[trigger] dec_digits(n)[k],
    ensures
        digits_value(s, i, i + dec_digits(n).len()) == n,
    decreases n,
{
    if n < 10 {
        assert(s[i] == dec_digits(n)[0]);
        assert(s[i] == (48 + n) as u8);
        assert(digits_value(s, i, i) == 0);
        assert(digits_value(s, i, i + 1) == n);
    } else {
        let d = dec_digits(n);
        let d0 = dec_digits(n / 10);
        assert(d == d0.push((48 + (n % 10)) as u8));
        assert(forall|k: int| 0 <= k < d0.len() ==> s[i + k] == #[trigger] d0[k]) by {
            assert(forall|k: int| 0 <= k < d0.len() ==> #[trigger] d0[k] == d[k]);
        }
        lemma_digits_value_of_dec(s, i, n / 10);
        assert(d.len() == d0.len() + 1);
        assert(d[d.len() - 1] == (48 + (n % 10)) as u8);
        assert(s[i + d.len() - 1] == d[d.len() - 1]);
        assert(digits_value(s, i, i + d.len()) == digits_value(s, i, i + d0.len()) * 10 + (n
            % 10));
    }
}

/// A rendered number parses back to itself.
proof fn lemma_parse_nat_at(s: Seq<u8>, i: int, n: nat)
    requires
        0 <= i,
        n <= MAX_FIELD_LEN,
        i + dec_digits(n).len() <= s.len(),
        forall|k: int| 0 <= k < dec_digits(n).len() ==> s[i + k] == #[trigger] dec_digits(n)[k],
        i + dec_digits(n).len() == s.len() || !is_digit(s[i + dec_digits(n).len()]),
    ensures
        parse_nat(s, i) == Some((n, i + dec_digits(n).len())),
{
    lemma_dec_digits_are_digits(n);
    lemma_pow10_9();
    lemma_dec_digits_len(n, 9);
    assert(forall|k: int| i <= k < i + dec_digits(n).len() ==> is_digit(#[trigger] s[k])) by {
        assert(forall|k: int|
            i <= k < i + dec_digits(n).len() ==> #[trigger] s[k] == dec_digits(n)[k - i]);
    }
    lemma_digit_run(s, i, dec_digits(n).len() as int);
    lemma_digits_value_of_dec(s, i, n);
}

/// An encoded byte string parses back to itself.
proof fn lemma_parse_bstr_at(s: Seq<u8>, i: int, b: Seq<u8>)
    requires
        0 <= i,
        b.len() <= MAX_FIELD_LEN,
        i + enc_bstr(b).len() <= s.len(),
        s.subrange(i, i + enc_bstr(b).len()) == enc_bstr(b),
    ensures
        parse_bstr(s, i) == Some((b, i + enc_bstr(b).len())),
{
    let d = dec_digits(b.len());
    let e = enc_bstr(b);
    assert(forall|k: int| 0 <= k < e.len() ==> s[i + k] == #[trigger] e[k]) by {
        assert(forall|k: int|
            0 <= k < e.len() ==> s.subrange(i, i + e.len())[k] == #[trigger] e[k]);
    }
    assert(forall|k: int| 0 <= k < d.len() ==> s[i + k] == #[trigger] d[k]) by {
        assert(forall|k: int| 0 <= k < d.len() ==> #[trigger] d[k] == e[k]);
    }
    assert(e[d.len() as int] == 58);
    assert(s[i + d.len()] == 58);
    lemma_parse_nat_at(s, i, b.len());
    let j = i + d.len();
    assert(s.subrange(j + 1, j + 1 + b.len()) =~= b) by {
        assert(forall|k: int| 0 <= k < b.len() ==> #[trigger] e[d.len() + 1 + k] == b[k]);
        assert forall|k: int| 0 <= k < b.len() implies s.subrange(j + 1, j + 1 + b.len())[k]
            == b[k] by {
            assert(e[d.len() + 1 + k] == b[k]);
            assert(s[i + (d.len() + 1 + k)] == e[d.len() + 1 + k]);
        }
    }
}

/// An encoded integer parses back to itself.
proof fn lemma_parse_int_at(s: Seq<u8>, i: int, c: int)
    requires
        0 <= i,
        -(MAX_FIELD_LEN as int) <= c <= MAX_FIELD_LEN as int,
        i + enc_int(c).len() <= s.len(),
        s.subrange(i, i + enc_int(c).len()) == enc_int(c),
    ensures
        parse_int(s, i) == Some((c, i + enc_int(c).len())),
{
    let e = enc_int(c);
    assert(forall|k: int| 0 <= k < e.len() ==> s[i + k] == #[trigger] e[k]) by {
        assert(forall|k: int|
            0 <= k < e.len() ==> s.subrange(i, i + e.len())[k] == #[trigger] e[k]);
    }
    assert(e[0] == 105);
    assert(s[i] == 105);
    if c < 0 {
        let d = dec_digits((-c) as nat);
        assert(e[1] == 45);
        assert(s[i + 1] == 45);
        assert(forall|k: int| 0 <= k < d.len() ==> s[i + 2 + k] == #[trigger] d[k]) by {
            assert(forall|k: int| 0 <= k < d.len() ==> #[trigger] d[k] == e[2 + k]);
        }
        assert(e[2 + d.len() as int] == 101);
        assert(s[i + 2 + d.len()] == 101);
        lemma_parse_nat_at(s, i + 2, (-c) as nat);
    } else {
        let d = dec_digits(c as nat);
        assert(forall|k: int| 0 <= k < d.len() ==> s[i + 1 + k] == #[trigger] d[k]) by {
            assert(forall|k: int| 0 <= k < d.len() ==> #[trigger] d[k] == e[1 + k]);
        }
        assert(e[1 + d.len() as int] == 101);
        assert(s[i + 1 + d.len()] == 101);
        lemma_parse_nat_at(s, i + 1, c as nat);
        lemma_dec_digits_are_digits(c as nat);
        assert(e[1] == d[0]);
        assert(s[i + 1] == d[0]);
        assert(!(s[i + 1] == 45));
    }
}

/// A byte-string encoding is at least its payload plus two bytes.
proof fn lemma_enc_bstr_len(b: Seq<u8>)
    requires
        b.len() <= MAX_FIELD_LEN,
    ensures
        enc_bstr(b).len() == dec_digits(b.len()).len() + 1 + b.len(),
        1 <= dec_digits(b.len()).len() <= 9,
        enc_bstr(b)[0] == dec_digits(b.len())[0],
        is_digit(enc_bstr(b)[0]),
{
    lemma_pow10_9();
    lemma_dec_digits_len(b.len(), 9);
    lemma_dec_digits_are_digits(b.len());
}

/// One modeled single-byte-key entry (`t`, `v`, `y` or `q`) advances the
/// envelope scan and records its value.
#[verifier::rlimit(100)]
#[verifier::spinoff_prover]
proof fn lemma_msg_entry_bstr(s: Seq<u8>, i: int, keybyte: u8, val: Seq<u8>, acc: PartialMsg)
    requires
        keybyte == 116 || keybyte == 118 || keybyte == 121 || keybyte == 113,
        val.len() <= MAX_FIELD_LEN,
        0 <= i,
        i + enc_bstr(seq![keybyte]).len() + enc_bstr(val).len() <= s.len(),
        s.subrange(i, i + enc_bstr(seq![keybyte]).len()) == enc_bstr(seq![keybyte]),
        s.subrange(
            i + enc_bstr(seq![keybyte]).len(),
            i + enc_bstr(seq![keybyte]).len() + enc_bstr(val).len(),
        ) == enc_bstr(val),
    ensures
        parse_msg_entries(s, i, acc) == parse_msg_entries(
            s,
            i + enc_bstr(seq![keybyte]).len() + enc_bstr(val).len(),
            if keybyte == 116 {
                PartialMsg { t: keep_or(acc.t, val), ..acc }
            } else if keybyte == 118 {
                PartialMsg { v: keep_or(acc.v, val), ..acc }
            } else if keybyte == 121 {
                PartialMsg { y: keep_or(acc.y, val), ..acc }
            } else {
                PartialMsg { method: keep_or(acc.method, val), ..acc }
            },
        ),
{
    let k = seq![keybyte];
    lemma_enc_bstr_len(k);
    lemma_enc_bstr_len(val);
    let p1 = i + enc_bstr(k).len();
    let p2 = p1 + enc_bstr(val).len();
    lemma_parse_bstr_at(s, i, k);
    lemma_parse_bstr_at(s, p1, val);
    assert(s[i] == enc_bstr(k)[0]) by {
        assert(s.subrange(i, p1)[0] == s[i]);
    }
    assert(s[i] != 101 && i < s.len());
    assert((k == seq![116u8]) == (keybyte == 116)) by {
        if keybyte == 116 {
            assert(k =~= seq![116u8]);
        } else {
            assert(k[0] != seq![116u8][0]);
        }
    }
    assert((k == seq![118u8]) == (keybyte == 118)) by {
        if keybyte == 118 {
            assert(k =~= seq![118u8]);
        } else {
            assert(k[0] != seq![118u8][0]);
        }
    }
    assert((k == seq![121u8]) == (keybyte == 121)) by {
        if keybyte == 121 {
            assert(k =~= seq![121u8]);
        } else {
            assert(k[0] != seq![121u8][0]);
        }
    }
    assert((k == seq![113u8]) == (keybyte == 113)) by {
        if keybyte == 113 {
            assert(k =~= seq![113u8]);
        } else {
            assert(k[0] != seq![113u8][0]);
        }
    }
    assert(k != seq![97u8] && k != seq![114u8] && k != seq![101u8]) by {
        assert(k[0] != seq![97u8][0] && k[0] != seq![114u8][0] && k[0] != seq![101u8][0]);
    }
}

/// The canonical arguments dictionary scans to its id and target.
#[verifier::rlimit(100)]
#[verifier::spinoff_prover]
proof fn lemma_args_scan(s: Seq<u8>, i: int, id: Id, target: Option<Id>, acc: PartialMsg)
    requires
        acc.a_id is None,
        acc.a_target is None,
        0 <= i,
        i + enc_args_inner(id, target).len() <= s.len(),
        s.subrange(i, i + enc_args_inner(id, target).len()) == enc_args_inner(id, target),
    ensures
        parse_args_entries(s, i, acc) == Some(
            ((PartialMsg { a_id: Some(id), a_target: target, ..acc }), i + enc_args_inner(
                id,
                target,
            ).len()),
        ),
{
    let kid = seq![105u8, 100u8];
    let ktg = seq![116u8, 97u8, 114u8, 103u8, 101u8, 116u8];
    lemma_enc_bstr_len(kid);
    lemma_enc_bstr_len(crate::id::id_bytes(id));
    crate::id::lemma_id_bytes_roundtrip(id);
    let e = enc_args_inner(id, target);
    assert(forall|x: int| 0 <= x < e.len() ==> s[i + x] == #[trigger] e[x]) by {
        assert(forall|x: int|
            0 <= x < e.len() ==> s.subrange(i, i + e.len())[x] == #[trigger] e[x]);
    }
    let q2 = i + enc_bstr(kid).len();
    let q3 = q2 + enc_id(id).len();
    assert(s.subrange(i, q2) =~= enc_bstr(kid)) by {
        assert(forall|x: int|
            0 <= x < enc_bstr(kid).len() ==> #[trigger] enc_bstr(kid)[x] == e[x]);
    }
    lemma_parse_bstr_at(s, i, kid);
    assert(s[i] == enc_bstr(kid)[0] && is_digit(s[i]) && s[i] != 101);
    assert(s.subrange(q2, q3) =~= enc_id(id)) by {
        assert(forall|x: int|
            0 <= x < enc_id(id).len() ==> #[trigger] enc_id(id)[x] == e[(q2 - i) + x]);
    }
    lemma_parse_bstr_at(s, q2, crate::id::id_bytes(id));
    assert(kid != ktg) by {
        assert(kid.len() != ktg.len());
    }
    let acc1 = PartialMsg { a_id: Some(id), ..acc };
    match target {
        Some(tg) => {
            crate::id::lemma_id_bytes_roundtrip(tg);
            lemma_enc_bstr_len(ktg);
            lemma_enc_bstr_len(crate::id::id_bytes(tg));
            let q4 = q3 + enc_bstr(ktg).len();
            let q5 = q4 + enc_id(tg).len();
            assert(s.subrange(q3, q4) =~= enc_bstr(ktg)) by {
                assert(forall|x: int|
                    0 <= x < enc_bstr(ktg).len() ==> #[trigger] enc_bstr(ktg)[x] == e[(q3 - i) + x]);
            }
            lemma_parse_bstr_at(s, q3, ktg);
            assert(s[q3] == enc_bstr(ktg)[0] && is_digit(s[q3]) && s[q3] != 101);
            assert(s.subrange(q4, q5) =~= enc_id(tg)) by {
                assert(forall|x: int|
                    0 <= x < enc_id(tg).len() ==> #[trigger] enc_id(tg)[x] == e[(q4 - i) + x]);
            }
            lemma_parse_bstr_at(s, q4, crate::id::id_bytes(tg));
            assert(s[q5] == e[q5 - i] && e[q5 - i] == 101);
            let acc2 = PartialMsg { a_target: Some(tg), ..acc1 };
            assert(parse_args_entries(s, q5, acc2) == Some((acc2, q5 + 1)));
        },
        None => {
            assert(s[q3] == e[q3 - i] && e[q3 - i] == 101);
            assert(parse_args_entries(s, q3, acc1) == Some((acc1, q3 + 1)));
        },
    }
}

/// The canonical `a` entry advances the envelope scan, recording the
/// querying id and the optional target.
#[verifier::rlimit(100)]
#[verifier::spinoff_prover]
proof fn lemma_msg_entry_args(s: Seq<u8>, i: int, id: Id, target: Option<Id>, acc: PartialMsg)
    requires
        acc.a_id is None,
        acc.a_target is None,
        0 <= i,
        i + enc_args(id, target).len() <= s.len(),
        s.subrange(i, i + enc_args(id, target).len()) == enc_args(id, target),
    ensures
        parse_msg_entries(s, i, acc) == parse_msg_entries(
            s,
            i + enc_args(id, target).len(),
            (PartialMsg { a_id: Some(id), a_target: target, ..acc }),
        ),
{
    let ka = seq![97u8];
    lemma_enc_bstr_len(ka);
    let e = enc_args(id, target);
    assert(forall|x: int| 0 <= x < e.len() ==> s[i + x] == #[trigger] e[x]) by {
        assert(forall|x: int|
            0 <= x < e.len() ==> s.subrange(i, i + e.len())[x] == #[trigger] e[x]);
    }
    let p1 = i + enc_bstr(ka).len();
    assert(s.subrange(i, p1) =~= enc_bstr(ka)) by {
        assert(forall|x: int| 0 <= x < enc_bstr(ka).len() ==> #[trigger] enc_bstr(ka)[x] == e[x]);
    }
    lemma_parse_bstr_at(s, i, ka);
    assert(s[i] == enc_bstr(ka)[0] && is_digit(s[i]) && s[i] != 101);
    assert(ka != seq![116u8] && ka != seq![118u8] && ka != seq![121u8] && ka != seq![113u8]
        && ka != seq![114u8] && ka != seq![101u8]) by {
        assert(ka[0] == 97);
    }
    assert(s[p1] == e[p1 - i] && e[p1 - i] == 100);
    let inner = enc_args_inner(id, target);
    assert(s.subrange(p1 + 1, p1 + 1 + inner.len()) =~= inner) by {
        assert(forall|x: int|
            0 <= x < inner.len() ==> #[trigger] inner[x] == e[(p1 + 1 - i) + x]);
    }
    lemma_args_scan(s, p1 + 1, id, target, acc);
}

/// The canonical values dictionary scans to its id and node list.
#[verifier::rlimit(100)]
#[verifier::spinoff_prover]
proof fn lemma_vals_scan(s: Seq<u8>, i: int, id: Id, nodes: Option<Seq<u8>>, acc: PartialMsg)
    requires
        acc.r_id is None,
        acc.r_nodes is None,
        match nodes {
            Some(n) => n.len() <= MAX_FIELD_LEN,
            None => true,
        },
        0 <= i,
        i + enc_vals_inner(id, nodes).len() <= s.len(),
        s.subrange(i, i + enc_vals_inner(id, nodes).len()) == enc_vals_inner(id, nodes),
    ensures
        parse_vals_entries(s, i, acc) == Some(
            ((PartialMsg { r_id: Some(id), r_nodes: nodes, ..acc }), i + enc_vals_inner(
                id,
                nodes,
            ).len()),
        ),
{
    let kid = seq![105u8, 100u8];
    let knd = seq![110u8, 111u8, 100u8, 101u8, 115u8];
    lemma_enc_bstr_len(kid);
    lemma_enc_bstr_len(crate::id::id_bytes(id));
    crate::id::lemma_id_bytes_roundtrip(id);
    let e = enc_vals_inner(id, nodes);
    assert(forall|x: int| 0 <= x < e.len() ==> s[i + x] == #[trigger] e[x]) by {
        assert(forall|x: int|
            0 <= x < e.len() ==> s.subrange(i, i + e.len())[x] == #[trigger] e[x]);
    }
    let q2 = i + enc_bstr(kid).len();
    let q3 = q2 + enc_id(id).len();
    assert(s.subrange(i, q2) =~= enc_bstr(kid)) by {
        assert(forall|x: int|
            0 <= x < enc_bstr(kid).len() ==> #[trigger] enc_bstr(kid)[x] == e[x]);
    }
    lemma_parse_bstr_at(s, i, kid);
    assert(s[i] == enc_bstr(kid)[0] && is_digit(s[i]) && s[i] != 101);
    assert(s.subrange(q2, q3) =~= enc_id(id)) by {
        assert(forall|x: int|
            0 <= x < enc_id(id).len() ==> #[trigger] enc_id(id)[x] == e[(q2 - i) + x]);
    }
    lemma_parse_bstr_at(s, q2, crate::id::id_bytes(id));
    assert(kid != knd) by {
        assert(kid.len() != knd.len());
    }
    let acc1 = PartialMsg { r_id: Some(id), ..acc };
    match nodes {
        Some(n) => {
            lemma_enc_bstr_len(knd);
            lemma_enc_bstr_len(n);
            let q4 = q3 + enc_bstr(knd).len();
            let q5 = q4 + enc_bstr(n).len();
            assert(s.subrange(q3, q4) =~= enc_bstr(knd)) by {
                assert(forall|x: int|
                    0 <= x < enc_bstr(knd).len() ==> #[trigger] enc_bstr(knd)[x] == e[(q3 - i) + x]);
            }
            lemma_parse_bstr_at(s, q3, knd);
            assert(s[q3] == enc_bstr(knd)[0] && is_digit(s[q3]) && s[q3] != 101);
            assert(s.subrange(q4, q5) =~= enc_bstr(n)) by {
                assert(forall|x: int|
                    0 <= x < enc_bstr(n).len() ==> #[trigger] enc_bstr(n)[x] == e[(q4 - i) + x]);
            }
            lemma_parse_bstr_at(s, q4, n);
            assert(s[q5] == e[q5 - i] && e[q5 - i] == 101);
            let acc2 = PartialMsg { r_nodes: Some(n), ..acc1 };
            assert(parse_vals_entries(s, q5, acc2) == Some((acc2, q5 + 1)));
        },
        None => {
            assert(s[q3] == e[q3 - i] && e[q3 - i] == 101);
            assert(parse_vals_entries(s, q3, acc1) == Some((acc1, q3 + 1)));
        },
    }
}

/// The canonical `r` entry advances the envelope scan, recording the
/// queried id and the optional node list.
#[verifier::rlimit(100)]
#[verifier::spinoff_prover]
proof fn lemma_msg_entry_vals(s: Seq<u8>, i: int, id: Id, nodes: Option<Seq<u8>>, acc: PartialMsg)
    requires
        acc.r_id is None,
        acc.r_nodes is None,
        match nodes {
            Some(n) => n.len() <= MAX_FIELD_LEN,
            None => true,
        },
        0 <= i,
        i + enc_vals(id, nodes).len() <= s.len(),
        s.subrange(i, i + enc_vals(id, nodes).len()) == enc_vals(id, nodes),
    ensures
        parse_msg_entries(s, i, acc) == parse_msg_entries(
            s,
            i + enc_vals(id, nodes).len(),
            (PartialMsg { r_id: Some(id), r_nodes: nodes, ..acc }),
        ),
{
    let kr = seq![114u8];
    lemma_enc_bstr_len(kr);
    let e = enc_vals(id, nodes);
    assert(forall|x: int| 0 <= x < e.len() ==> s[i + x] == #[trigger] e[x]) by {
        assert(forall|x: int|
            0 <= x < e.len() ==> s.subrange(i, i + e.len())[x] == #[trigger] e[x]);
    }
    let p1 = i + enc_bstr(kr).len();
    assert(s.subrange(i, p1) =~= enc_bstr(kr)) by {
        assert(forall|x: int| 0 <= x < enc_bstr(kr).len() ==> #[trigger] enc_bstr(kr)[x] == e[x]);
    }
    lemma_parse_bstr_at(s, i, kr);
    assert(s[i] == enc_bstr(kr)[0] && is_digit(s[i]) && s[i] != 101);
    assert(kr != seq![116u8] && kr != seq![118u8] && kr != seq![121u8] && kr != seq![113u8]
        && kr != seq![97u8] && kr != seq![101u8]) by {
        assert(kr[0] == 114);
    }
    assert(s[p1] == e[p1 - i] && e[p1 - i] == 100);
    let inner = enc_vals_inner(id, nodes);
    assert(s.subrange(p1 + 1, p1 + 1 + inner.len()) =~= inner) by {
        assert(forall|x: int|
            0 <= x < inner.len() ==> #[trigger] inner[x] == e[(p1 + 1 - i) + x]);
    }
    lemma_vals_scan(s, p1 + 1, id, nodes, acc);
}

/// The canonical `e` entry advances the envelope scan, recording the
/// error code and text.
#[verifier::rlimit(100)]
#[verifier::spinoff_prover]
proof fn lemma_msg_entry_err(s: Seq<u8>, i: int, code: int, msg: Seq<u8>, acc: PartialMsg)
    requires
        acc.e_code is None,
        acc.e_msg is None,
        -(MAX_FIELD_LEN as int) <= code <= MAX_FIELD_LEN as int,
        msg.len() <= MAX_FIELD_LEN,
        0 <= i,
        i + enc_err(code, msg).len() <= s.len(),
        s.subrange(i, i + enc_err(code, msg).len()) == enc_err(code, msg),
    ensures
        parse_msg_entries(s, i, acc) == parse_msg_entries(
            s,
            i + enc_err(code, msg).len(),
            (PartialMsg { e_code: Some(code), e_msg: Some(msg), ..acc }),
        ),
{
    let ke = seq![101u8];
    lemma_enc_bstr_len(ke);
    lemma_enc_bstr_len(msg);
    let e = enc_err(code, msg);
    assert(forall|x: int| 0 <= x < e.len() ==> s[i + x] == #[trigger] e[x]) by {
        assert(forall|x: int|
            0 <= x < e.len() ==> s.subrange(i, i + e.len())[x] == #[trigger] e[x]);
    }
    let p1 = i + enc_bstr(ke).len();
    assert(s.subrange(i, p1) =~= enc_bstr(ke)) by {
        assert(forall|x: int| 0 <= x < enc_bstr(ke).len() ==> #[trigger] enc_bstr(ke)[x] == e[x]);
    }
    lemma_parse_bstr_at(s, i, ke);
    assert(s[i] == enc_bstr(ke)[0] && is_digit(s[i]) && s[i] != 101);
    assert(ke != seq![116u8] && ke != seq![118u8] && ke != seq![121u8] && ke != seq![113u8]
        && ke != seq![97u8] && ke != seq![114u8]) by {
        assert(ke[0] == 101);
    }
    assert(s[p1] == e[p1 - i] && e[p1 - i] == 108);
    let q1 = p1 + 1;
    let q2 = q1 + enc_int(code).len();
    let q3 = q2 + enc_bstr(msg).len();
    assert(s.subrange(q1, q2) =~= enc_int(code)) by {
        assert(forall|x: int|
            0 <= x < enc_int(code).len() ==> #[trigger] enc_int(code)[x] == e[(q1 - i) + x]);
    }
    lemma_parse_int_at(s, q1, code);
    assert(s.subrange(q2, q3) =~= enc_bstr(msg)) by {
        assert(forall|x: int|
            0 <= x < enc_bstr(msg).len() ==> #[trigger] enc_bstr(msg)[x] == e[(q2 - i) + x]);
    }
    lemma_parse_bstr_at(s, q2, msg);
    assert(s[q3] == e[q3 - i] && e[q3 - i] == 101);
    assert(skip_items(s, q3) == Some(q3 + 1));
    assert(enc_int(code).len() >= 3) by {
        lemma_pow10_9();
        if code < 0 {
            lemma_dec_digits_len((-code) as nat, 9);
        } else {
            lemma_dec_digits_len(code as nat, 9);
        }
    }
}

/// The canonical entries of the query arguments dictionary.
pub open spec fn enc_args_inner(id: Id, target: Option<Id>) -> Seq<u8> {
    enc_bstr(seq![105u8, 100u8]) + enc_id(id) + (match target {
        Some(tg) => enc_bstr(seq![116u8, 97u8, 114u8, 103u8, 101u8, 116u8]) + enc_id(tg),
        None => Seq::empty(),
    }) + seq![101u8]
}

/// The canonical bencoding of the query arguments entry.
pub open spec fn enc_args(id: Id, target: Option<Id>) -> Seq<u8> {
    enc_bstr(seq![97u8]) + seq![100u8] + enc_args_inner(id, target)
}

/// The canonical entries of the response values dictionary.
pub open spec fn enc_vals_inner(id: Id, nodes: Option<Seq<u8>>) -> Seq<u8> {
    enc_bstr(seq![105u8, 100u8]) + enc_id(id) + (match nodes {
        Some(n) => enc_bstr(seq![110u8, 111u8, 100u8, 101u8, 115u8]) + enc_bstr(n),
        None => Seq::empty(),
    }) + seq![101u8]
}

/// The canonical bencoding of the response values entry.
pub open spec fn enc_vals(id: Id, nodes: Option<Seq<u8>>) -> Seq<u8> {
    enc_bstr(seq![114u8]) + seq![100u8] + enc_vals_inner(id, nodes)
}

/// The canonical bencoding of the error payload entry.
pub open spec fn enc_err(code: int, msg: Seq<u8>) -> Seq<u8> {
    enc_bstr(seq![101u8]) + seq![108u8] + enc_int(code) + enc_bstr(msg) + seq![101u8]
}

/// Round trip for query messages.
#[verifier::rlimit(100)]
#[verifier::spinoff_prover]
proof fn lemma_round_trip_query(m: MsgView, method: Seq<u8>, id: Id, target: Option<Id>)
    requires
        m.wf(),
        m.body == (BodyView::Query { method, id, target }),
    ensures
        spec_decode(spec_encode(m)) == Some(m),
{
    let s = spec_encode(m);
    let seg_a = enc_args(id, target);
    let seg_kq = enc_bstr(seq![113u8]);
    let seg_m = enc_bstr(method);
    let seg_kt = enc_bstr(seq![116u8]);
    let seg_t = enc_bstr(m.t);
    let seg_ov = enc_opt_v(m.v);
    let seg_ky = enc_bstr(seq![121u8]);
    let seg_y = enc_bstr(seq![113u8]);
    assert(s =~= seq![100u8] + seg_a + seg_kq + seg_m + seg_kt + seg_t + seg_ov + seg_ky + seg_y
        + seq![101u8]);
    let p1: int = 1 + seg_a.len() as int;
    let p2: int = p1 + seg_kq.len() + seg_m.len();
    let p3: int = p2 + seg_kt.len() + seg_t.len();
    let p4: int = p3 + seg_ov.len();
    let p5: int = p4 + seg_ky.len() + seg_y.len();
    assert(s[0] == 100);
    assert(s.subrange(1, p1) =~= seg_a);
    lemma_msg_entry_args(s, 1, id, target, empty_partial());
    let acc1 = PartialMsg { a_id: Some(id), a_target: target, ..empty_partial() };
    assert(s.subrange(p1, p1 + seg_kq.len()) =~= seg_kq);
    assert(s.subrange(p1 + seg_kq.len(), p2) =~= seg_m);
    lemma_msg_entry_bstr(s, p1, 113, method, acc1);
    let acc2 = PartialMsg { method: Some(method), ..acc1 };
    assert(s.subrange(p2, p2 + seg_kt.len()) =~= seg_kt);
    assert(s.subrange(p2 + seg_kt.len(), p3) =~= seg_t);
    lemma_msg_entry_bstr(s, p2, 116, m.t, acc2);
    let acc3 = PartialMsg { t: Some(m.t), ..acc2 };
    let acc4 = PartialMsg { v: m.v, ..acc3 };
    match m.v {
        Some(vv) => {
            assert(s.subrange(p3, p3 + enc_bstr(seq![118u8]).len()) =~= enc_bstr(seq![118u8]));
            assert(s.subrange(p3 + enc_bstr(seq![118u8]).len(), p4) =~= enc_bstr(vv));
            lemma_msg_entry_bstr(s, p3, 118, vv, acc3);
            assert(acc4 == (PartialMsg { v: keep_or(acc3.v, vv), ..acc3 }));
        },
        None => {
            assert(acc4 == acc3);
        },
    }
    assert(s.subrange(p4, p4 + seg_ky.len()) =~= seg_ky);
    assert(s.subrange(p4 + seg_ky.len(), p5) =~= seg_y);
    lemma_msg_entry_bstr(s, p4, 121, seq![113u8], acc4);
    let acc5 = PartialMsg { y: Some(seq![113u8]), ..acc4 };
    assert(p5 + 1 == s.len() && s[p5] == 101);
    assert(parse_msg_entries(s, p5, acc5) == Some((acc5, p5 + 1)));
    assert(parse_msg_entries(s, 1, empty_partial()) == Some((acc5, s.len() as int)));
    assert(assemble(acc5) == Some(m));
}

/// Round trip for response messages.
#[verifier::rlimit(100)]
#[verifier::spinoff_prover]
proof fn lemma_round_trip_resp(m: MsgView, id: Id, nodes: Option<Seq<u8>>)
    requires
        m.wf(),
        m.body == (BodyView::Resp { id, nodes }),
    ensures
        spec_decode(spec_encode(m)) == Some(m),
{
    let s = spec_encode(m);
    let seg_r = enc_vals(id, nodes);
    let seg_kt = enc_bstr(seq![116u8]);
    let seg_t = enc_bstr(m.t);
    let seg_ov = enc_opt_v(m.v);
    let seg_ky = enc_bstr(seq![121u8]);
    let seg_y = enc_bstr(seq![114u8]);
    assert(s =~= seq![100u8] + seg_r + seg_kt + seg_t + seg_ov + seg_ky + seg_y + seq![101u8]);
    let p1: int = 1 + seg_r.len() as int;
    let p2: int = p1 + seg_kt.len() + seg_t.len();
    let p3: int = p2 + seg_ov.len();
    let p4: int = p3 + seg_ky.len() + seg_y.len();
    assert(s[0] == 100);
    assert(s.subrange(1, p1) =~= seg_r);
    lemma_msg_entry_vals(s, 1, id, nodes, empty_partial());
    let acc1 = PartialMsg { r_id: Some(id), r_nodes: nodes, ..empty_partial() };
    assert(s.subrange(p1, p1 + seg_kt.len()) =~= seg_kt);
    assert(s.subrange(p1 + seg_kt.len(), p2) =~= seg_t);
    lemma_msg_entry_bstr(s, p1, 116, m.t, acc1);
    let acc2 = PartialMsg { t: Some(m.t), ..acc1 };
    let acc3 = PartialMsg { v: m.v, ..acc2 };
    match m.v {
        Some(vv) => {
            assert(s.subrange(p2, p2 + enc_bstr(seq![118u8]).len()) =~= enc_bstr(seq![118u8]));
            assert(s.subrange(p2 + enc_bstr(seq![118u8]).len(), p3) =~= enc_bstr(vv));
            lemma_msg_entry_bstr(s, p2, 118, vv, acc2);
            assert(acc3 == (PartialMsg { v: keep_or(acc2.v, vv), ..acc2 }));
        },
        None => {
            assert(acc3 == acc2);
        },
    }
    assert(s.subrange(p3, p3 + seg_ky.len()) =~= seg_ky);
    assert(s.subrange(p3 + seg_ky.len(), p4) =~= seg_y);
    lemma_msg_entry_bstr(s, p3, 121, seq![114u8], acc3);
    let acc4 = PartialMsg { y: Some(seq![114u8]), ..acc3 };
    assert(p4 + 1 == s.len() && s[p4] == 101);
    assert(parse_msg_entries(s, p4, acc4) == Some((acc4, p4 + 1)));
    assert(parse_msg_entries(s, 1, empty_partial()) == Some((acc4, s.len() as int)));
    assert(seq![114u8] != seq![113u8]) by {
        assert(seq![114u8][0] == 114);
    }
    assert(assemble(acc4) == Some(m));
}

/// Round trip for error messages.
#[verifier::rlimit(100)]
#[verifier::spinoff_prover]
proof fn lemma_round_trip_error(m: MsgView, code: int, msg: Seq<u8>)
    requires
        m.wf(),
        m.body == (BodyView::Error { code, msg }),
    ensures
        spec_decode(spec_encode(m)) == Some(m),
{
    let s = spec_encode(m);
    let seg_e = enc_err(code, msg);
    let seg_kt = enc_bstr(seq![116u8]);
    let seg_t = enc_bstr(m.t);
    let seg_ov = enc_opt_v(m.v);
    let seg_ky = enc_bstr(seq![121u8]);
    let seg_y = enc_bstr(seq![101u8]);
    assert(s =~= seq![100u8] + seg_e + seg_kt + seg_t + seg_ov + seg_ky + seg_y + seq![101u8]);
    let p1: int = 1 + seg_e.len() as int;
    let p2: int = p1 + seg_kt.len() + seg_t.len();
    let p3: int = p2 + seg_ov.len();
    let p4: int = p3 + seg_ky.len() + seg_y.len();
    assert(s[0] == 100);
    assert(s.subrange(1, p1) =~= seg_e);
    lemma_msg_entry_err(s, 1, code, msg, empty_partial());
    let acc1 = PartialMsg { e_code: Some(code), e_msg: Some(msg), ..empty_partial() };
    assert(s.subrange(p1, p1 + seg_kt.len()) =~= seg_kt);
    assert(s.subrange(p1 + seg_kt.len(), p2) =~= seg_t);
    lemma_msg_entry_bstr(s, p1, 116, m.t, acc1);
    let acc2 = PartialMsg { t: Some(m.t), ..acc1 };
    let acc3 = PartialMsg { v: m.v, ..acc2 };
    match m.v {
        Some(vv) => {
            assert(s.subrange(p2, p2 + enc_bstr(seq![118u8]).len()) =~= enc_bstr(seq![118u8]));
            assert(s.subrange(p2 + enc_bstr(seq![118u8]).len(), p3) =~= enc_bstr(vv));
            lemma_msg_entry_bstr(s, p2, 118, vv, acc2);
            assert(acc3 == (PartialMsg { v: keep_or(acc2.v, vv), ..acc2 }));
        },
        None => {
            assert(acc3 == acc2);
        },
    }
    assert(s.subrange(p3, p3 + seg_ky.len()) =~= seg_ky);
    assert(s.subrange(p3 + seg_ky.len(), p4) =~= seg_y);
    lemma_msg_entry_bstr(s, p3, 121, seq![101u8], acc3);
    let acc4 = PartialMsg { y: Some(seq![101u8]), ..acc3 };
    assert(p4 + 1 == s.len() && s[p4] == 101);
    assert(parse_msg_entries(s, p4, acc4) == Some((acc4, p4 + 1)));
    assert(parse_msg_entries(s, 1, empty_partial()) == Some((acc4, s.len() as int)));
    assert(seq![101u8] != seq![113u8] && seq![101u8] != seq![114u8]) by {
        assert(seq![101u8][0] == 101);
    }
    assert(assemble(acc4) == Some(m));
}

/// Law: decoding an encoded message yields the message back, for every
/// message shape of the wire format.
pub proof fn lemma_round_trip(m: MsgView)
    requires
        m.wf(),
    ensures
        spec_decode(spec_encode(m)) == Some(m),
{
    match m.body {
        BodyView::Query { method, id, target } => lemma_round_trip_query(m, method, id, target),
        BodyView::Resp { id, nodes } => lemma_round_trip_resp(m, id, nodes),
        BodyView::Error { code, msg } => lemma_round_trip_error(m, code, msg),
    }
}

} // verus!
