use crate::chars::{push_char, str_chars, strip_quote_pair, trim, trim_range};
use crate::collection::{collect, lemma_collect_unique, unique_ids, OperationSet};
use crate::error::{ErrorKind, ParseError};
use crate::operation::{OpView, Operation, OperationStatus, OperationType};
use vstd::prelude::*;
use vstd::string::*;
use vstd::utf8::*;

verus! {

/// The four bytes that open every record: "YPBN".
pub open spec fn magic() -> Seq<u8> {
    seq![0x59u8, 0x50u8, 0x42u8, 0x4Eu8]
}

/// The big-endian `u32` at `b[at..at + 4]`.
pub open spec fn be32(b: Seq<u8>, at: int) -> u32 {
    (b[at] as u32) << 24u32 | (b[at + 1] as u32) << 16u32 | (b[at + 2] as u32) << 8u32 | (
    b[at + 3] as u32)
}

/// The big-endian `u64` at `b[at..at + 8]`.
pub open spec fn be64(b: Seq<u8>, at: int) -> u64 {
    (b[at] as u64) << 56u64 | (b[at + 1] as u64) << 48u64 | (b[at + 2] as u64) << 40u64 | (b[at
        + 3] as u64) << 32u64 | (b[at + 4] as u64) << 24u64 | (b[at + 5] as u64) << 16u64 | (b[at
        + 6] as u64) << 8u64 | (b[at + 7] as u64)
}

/// The four big-endian bytes of `v`.
pub open spec fn u32_bytes(v: u32) -> Seq<u8> {
    seq![(v >> 24u32) as u8, (v >> 16u32) as u8, (v >> 8u32) as u8, v as u8]
}

/// The eight big-endian bytes of `v`.
pub open spec fn u64_bytes(v: u64) -> Seq<u8> {
    seq![
        (v >> 56u64) as u8,
        (v >> 48u64) as u8,
        (v >> 40u64) as u8,
        (v >> 32u64) as u8,
        (v >> 24u64) as u8,
        (v >> 16u64) as u8,
        (v >> 8u64) as u8,
        v as u8,
    ]
}

/// What a backslash followed by `c` stands for, if it is a known escape.
pub open spec fn escaped(c: char) -> Option<char> {
    if c == '"' {
        Some('"')
    } else if c == '\\' {
        Some('\\')
    } else if c == 'n' {
        Some('\n')
    } else if c == 't' {
        Some('\t')
    } else if c == 'r' {
        Some('\r')
    } else {
        None
    }
}

/// `s` with each known backslash escape replaced by the character it stands for; a backslash
/// before anything else stays as it is.
pub open spec fn unescape(s: Seq<char>) -> Seq<char>
    decreases s.len(),
{
    if s.len() == 0 {
        seq![]
    } else if s[0] == '\\' && s.len() >= 2 && escaped(s[1]) is Some {
        seq![escaped(s[1])->0] + unescape(s.subrange(2, s.len() as int))
    } else {
        seq![s[0]] + unescape(s.drop_first())
    }
}

/// The description as a binary record yields it: trimmed, unquoted once, unescaped.
pub open spec fn normalize(s: Seq<char>) -> Seq<char> {
    unescape(strip_quote_pair(trim(s)))
}

/// The record that starts at `b[p..]`, with the position right after it, or what is wrong
/// with it.
pub open spec fn record_at(b: Seq<u8>, p: int) -> Result<(OpView, int), ErrorKind> {
    let n = b.len() - p;
    if n < 4 {
        Err(ErrorKind::Eof)
    } else if b.subrange(p, p + 4) != magic() {
        Err(ErrorKind::Magic)
    } else if n < 17 {
        Err(ErrorKind::Eof)
    } else if OperationType::from_ordinal(b[p + 16]) is None {
        Err(ErrorKind::Field("TX_TYPE"@))
    } else if n < 50 {
        Err(ErrorKind::Eof)
    } else if OperationStatus::from_ordinal(b[p + 49]) is None {
        Err(ErrorKind::Field("STATUS"@))
    } else if n < 54 {
        Err(ErrorKind::Eof)
    } else {
        let len = be32(b, p + 50) as int;
        let raw = b.subrange(p + 54, p + 54 + len);
        if n < 54 + len {
            Err(ErrorKind::Eof)
        } else if !valid_utf8(raw) {
            Err(ErrorKind::Field("DESCRIPTION"@))
        } else {
            let op = OpView {
                tx_id: be64(b, p + 8),
                tx_type: OperationType::from_ordinal(b[p + 16])->0,
                from_user_id: be64(b, p + 17),
                to_user_id: be64(b, p + 25),
                amount: be64(b, p + 33) as i64,
                timestamp: be64(b, p + 41),
                status: OperationStatus::from_ordinal(b[p + 49])->0,
                description: normalize(decode_utf8(raw)),
            };
            match op.check() {
                Some(e) => Err(e),
                None => Ok((op, p + 54 + len)),
            }
        }
    }
}

/// The bytes of one record.
pub open spec fn encode(op: OpView) -> Seq<u8> {
    let desc = encode_utf8(op.description);
    magic() + u32_bytes((54 + desc.len() - 8) as u32) + u64_bytes(op.tx_id) + seq![
        op.tx_type.ordinal(),
    ] + u64_bytes(op.from_user_id) + u64_bytes(op.to_user_id) + u64_bytes(op.amount as u64)
        + u64_bytes(op.timestamp) + seq![op.status.ordinal()] + u32_bytes(desc.len() as u32)
        + desc
}

/// Whether the record's length fields can hold its size.
pub open spec fn fits(op: OpView) -> bool {
    54 + encode_utf8(op.description).len() - 8 <= u32::MAX
}

/// What writing one record yields: its bytes, or why it cannot be written.
pub open spec fn write_spec(op: OpView) -> Result<Seq<u8>, ErrorKind> {
    match op.check() {
        Some(e) => Err(e),
        None => if fits(op) {
            Ok(encode(op))
        } else {
            Err(ErrorKind::RecordSize)
        },
    }
}

/// The records of a whole stream from `p` on; the stream may end only between records.
pub open spec fn records_from(b: Seq<u8>, p: int) -> Result<Seq<OpView>, ErrorKind>
    decreases b.len() - p,
{
    if p >= b.len() {
        Ok(seq![])
    } else {
        match record_at(b, p) {
            Err(e) => Err(e),
            // A record always ends after it starts; this arm only keeps the measure plain.
            Ok((op, end)) => if end <= p {
                Err(ErrorKind::Eof)
            } else {
                match records_from(b, end) {
                    Err(e) => Err(e),
                    Ok(rest) => Ok(seq![op] + rest),
                }
            },
        }
    }
}

/// The bytes of the records of `ops` written one after another, or the first failure.
pub open spec fn write_all_spec(ops: Seq<OpView>) -> Result<Seq<u8>, ErrorKind>
    decreases ops.len(),
{
    if ops.len() == 0 {
        Ok(seq![])
    } else {
        match write_spec(ops[0]) {
            Err(e) => Err(e),
            Ok(b) => match write_all_spec(ops.drop_first()) {
                Err(e) => Err(e),
                Ok(rest) => Ok(b + rest),
            },
        }
    }
}

fn read_u32(b: &[u8], at: usize) -> (r: u32)
    requires
        at + 4 <= b@.len(),
    ensures
        r == be32(b@, at as int),
{
    (b[at] as u32) << 24u32 | (b[at + 1] as u32) << 16u32 | (b[at + 2] as u32) << 8u32 | (b[at
        + 3] as u32)
}

fn read_u64(b: &[u8], at: usize) -> (r: u64)
    requires
        at + 8 <= b@.len(),
    ensures
        r == be64(b@, at as int),
{
    (b[at] as u64) << 56u64 | (b[at + 1] as u64) << 48u64 | (b[at + 2] as u64) << 40u64 | (b[at
        + 3] as u64) << 32u64 | (b[at + 4] as u64) << 24u64 | (b[at + 5] as u64) << 16u64 | (b[at
        + 6] as u64) << 8u64 | (b[at + 7] as u64)
}

fn put_u32(out: &mut Vec<u8>, v: u32)
    ensures
        final(out)@ == old(out)@ + u32_bytes(v),
{
    let ghost start = out@;
    out.push((v >> 24u32) as u8);
    out.push((v >> 16u32) as u8);
    out.push((v >> 8u32) as u8);
    out.push(v as u8);
    assert(out@ =~= start + u32_bytes(v));
}

fn put_u64(out: &mut Vec<u8>, v: u64)
    ensures
        final(out)@ == old(out)@ + u64_bytes(v),
{
    let ghost start = out@;
    out.push((v >> 56u64) as u8);
    out.push((v >> 48u64) as u8);
    out.push((v >> 40u64) as u8);
    out.push((v >> 32u64) as u8);
    out.push((v >> 24u64) as u8);
    out.push((v >> 16u64) as u8);
    out.push((v >> 8u64) as u8);
    out.push(v as u8);
    assert(out@ =~= start + u64_bytes(v));
}

/// Relies on `String::from_utf8`: it succeeds exactly on well-formed UTF-8 and decodes it.
#[verifier::external_body]
fn string_from_utf8(bytes: Vec<u8>) -> (r: Result<String, String>)
    ensures
        r is Ok <==> valid_utf8(bytes@),
        r matches Ok(s) ==> s@ == decode_utf8(bytes@),
{
    String::from_utf8(bytes).map_err(|e| e.to_string())
}

/// Replaces the escapes of `cs[lo..hi]`.
fn unescape_range(cs: &[char], lo: usize, hi: usize) -> (r: String)
    requires
        lo <= hi <= cs@.len(),
    ensures
        r@ == unescape(cs@.subrange(lo as int, hi as int)),
{
    let mut out = String::new();
    let mut i = lo;
    while i < hi
        invariant
            lo <= i <= hi <= cs@.len(),
            out@ + unescape(cs@.subrange(i as int, hi as int)) == unescape(
                cs@.subrange(lo as int, hi as int),
            ),
        decreases hi - i,
    {
        let ghost rest = cs@.subrange(i as int, hi as int);
        let c = cs[i];
        if c == '\\' && i + 1 < hi {
            let n = cs[i + 1];
            let e = if n == '"' {
                Some('"')
            } else if n == '\\' {
                Some('\\')
            } else if n == 'n' {
                Some('\n')
            } else if n == 't' {
                Some('\t')
            } else if n == 'r' {
                Some('\r')
            } else {
                None
            };
            assert(e == escaped(rest[1]));
            match e {
                Some(x) => {
                    assert(rest.subrange(2, rest.len() as int) =~= cs@.subrange(
                        i + 2,
                        hi as int,
                    ));
                    push_char(&mut out, x);
                    i += 2;
                },
                None => {
                    assert(rest.drop_first() =~= cs@.subrange(i + 1, hi as int));
                    push_char(&mut out, c);
                    i += 1;
                },
            }
        } else {
            assert(rest.drop_first() =~= cs@.subrange(i + 1, hi as int));
            push_char(&mut out, c);
            i += 1;
        }
        assert(out@ + unescape(cs@.subrange(i as int, hi as int)) =~= unescape(
            cs@.subrange(lo as int, hi as int),
        ));
    }
    assert(out@ + unescape(cs@.subrange(i as int, hi as int)) =~= out@);
    out
}

/// Replaces the backslash escapes of `s`.
pub fn unescape_string(s: &str) -> (r: String)
    ensures
        r@ == unescape(s@),
{
    let cs = str_chars(s);
    assert(cs@.subrange(0, cs@.len() as int) =~= s@);
    unescape_range(cs.as_slice(), 0, cs.len())
}

/// The description as a binary record yields it: trimmed, unquoted once, unescaped.
pub fn normalize_description(s: &str) -> (r: String)
    ensures
        r@ == normalize(s@),
{
    let cs = str_chars(s);
    assert(cs@.subrange(0, cs@.len() as int) =~= s@);
    let (a, b) = trim_range(cs.as_slice(), 0, cs.len());
    let ghost t = cs@.subrange(a as int, b as int);
    if b - a >= 2 && cs[a] == '"' && cs[b - 1] == '"' {
        assert(t.subrange(1, t.len() - 1) =~= cs@.subrange(a + 1, b - 1));
        unescape_range(cs.as_slice(), a + 1, b - 1)
    } else {
        unescape_range(cs.as_slice(), a, b)
    }
}

/// Reads the record that starts at `*pos`, and moves `*pos` past it.
pub fn parse_operation(input: &[u8], pos: &mut usize) -> (r: Result<Operation, ParseError>)
    requires
        *old(pos) <= input@.len(),
    ensures
        match record_at(input@, *old(pos) as int) {
            Ok((op, end)) => r matches Ok(o) && o@ == op && *final(pos) == end,
            Err(e) => r matches Err(x) && x@ == e && *final(pos) == *old(pos),
        },
{
    let p = *pos;
    let n = input.len() - p;
    if n < 4 {
        return Err(ParseError::UnexpectedEof);
    }
    if !(input[p] == 0x59 && input[p + 1] == 0x50 && input[p + 2] == 0x42 && input[p + 3]
        == 0x4E) {
        assert(input@.subrange(p as int, p + 4) != magic()) by {
            if input@.subrange(p as int, p + 4) == magic() {
                assert(input@.subrange(p as int, p + 4)[0] == input@[p as int]);
                assert(input@.subrange(p as int, p + 4)[1] == input@[p + 1]);
                assert(input@.subrange(p as int, p + 4)[2] == input@[p + 2]);
                assert(input@.subrange(p as int, p + 4)[3] == input@[p + 3]);
            }
        }
        return Err(ParseError::InvalidMagic);
    }
    assert(input@.subrange(p as int, p + 4) =~= magic());
    if n < 17 {
        return Err(ParseError::UnexpectedEof);
    }
    let tx_id = read_u64(input, p + 8);
    let tx_type = match OperationType::from_u8(input[p + 16]) {
        Ok(t) => t,
        Err(e) => {
            return Err(e);
        },
    };
    if n < 50 {
        return Err(ParseError::UnexpectedEof);
    }
    let from_user_id = read_u64(input, p + 17);
    let to_user_id = read_u64(input, p + 25);
    #[verifier::truncate]
    let amount = read_u64(input, p + 33) as i64;
    let timestamp = read_u64(input, p + 41);
    let status = match OperationStatus::from_u8(input[p + 49]) {
        Ok(s) => s,
        Err(e) => {
            return Err(e);
        },
    };
    if n < 54 {
        return Err(ParseError::UnexpectedEof);
    }
    let len = read_u32(input, p + 50) as usize;
    if n - 54 < len {
        return Err(ParseError::UnexpectedEof);
    }
    let mut raw: Vec<u8> = Vec::new();
    let mut i: usize = 0;
    while i < len
        invariant
            p + 54 + len <= input@.len() <= usize::MAX,
            i <= len,
            raw@ == input@.subrange(p + 54, p + 54 + i),
        decreases len - i,
    {
        raw.push(input[p + 54 + i]);
        i += 1;
        assert(raw@ =~= input@.subrange(p + 54, p + 54 + i));
    }
    let text = match string_from_utf8(raw) {
        Ok(t) => t,
        Err(m) => {
            let mut reason = String::from_str("Invalid UTF-8: ");
            reason.append(m.as_str());
            return Err(ParseError::field("DESCRIPTION", reason));
        },
    };
    let description = normalize_description(text.as_str());
    let op = Operation {
        tx_id,
        tx_type,
        from_user_id,
        to_user_id,
        amount,
        timestamp,
        status,
        description,
    };
    match op.validate() {
        Ok(()) => {},
        Err(e) => {
            return Err(e);
        },
    }
    *pos = p + 54 + len;
    Ok(op)
}

/// Appends the bytes of one record to `out`, after checking it.
pub fn write_operation(out: &mut Vec<u8>, operation: &Operation) -> (r: Result<(), ParseError>)
    ensures
        match write_spec(operation@) {
            Ok(b) => r is Ok && final(out)@ == old(out)@ + b,
            Err(e) => r matches Err(x) && x@ == e && final(out)@ == old(out)@,
        },
{
    match operation.validate() {
        Ok(()) => {},
        Err(e) => {
            return Err(e);
        },
    }
    let desc = operation.description.as_str().as_bytes();
    let desc_len = desc.len();
    if desc_len > 4294967295 - 46 {
        return Err(ParseError::InvalidRecordSize);
    }
    let ghost start = out@;
    let desc_len = desc_len as u32;
    out.push(0x59);
    out.push(0x50);
    out.push(0x42);
    out.push(0x4E);
    put_u32(out, 46 + desc_len);
    put_u64(out, operation.tx_id);
    out.push(operation.tx_type.to_u8());
    put_u64(out, operation.from_user_id);
    put_u64(out, operation.to_user_id);
    put_u64(out, operation.amount as u64);
    put_u64(out, operation.timestamp);
    out.push(operation.status.to_u8());
    put_u32(out, desc_len);
    let ghost before_desc = out@;
    let mut i: usize = 0;
    while i < desc.len()
        invariant
            i <= desc@.len(),
            out@ == before_desc + desc@.subrange(0, i as int),
        decreases desc@.len() - i,
    {
        out.push(desc[i]);
        i += 1;
        assert(out@ =~= before_desc + desc@.subrange(0, i as int));
    }
    assert(desc@.subrange(0, desc@.len() as int) =~= desc@);
    assert(out@ =~= start + encode(operation@));
    Ok(())
}

/// Reads every record of a stream that ends between records. Records that share a `tx_id`
/// collapse into the later one.
pub fn parse_all(input: &[u8]) -> (r: Result<OperationSet, ParseError>)
    ensures
        match records_from(input@, 0) {
            Ok(ops) => r matches Ok(s) && s@ == collect(ops) && s.wf(),
            Err(e) => r matches Err(x) && x@ == e,
        },
{
    let mut set = OperationSet::new();
    let mut pos: usize = 0;
    let ghost mut done: Seq<OpView> = seq![];
    while pos < input.len()
        invariant
            pos <= input@.len(),
            set.wf(),
            set@ == collect(done),
            records_from(input@, 0) == match records_from(input@, pos as int) {
                Ok(rest) => Ok(done + rest),
                Err(e) => Err(e),
            },
        decreases input@.len() - pos,
    {
        let ghost p = pos;
        match parse_operation(input, &mut pos) {
            Ok(op) => {
                proof {
                    assert(pos > p);
                    let tail = records_from(input@, pos as int);
                    if let Ok(rest) = tail {
                        assert(done + (seq![op@] + rest) =~= done.push(op@) + rest);
                    }
                    assert(done.push(op@).drop_last() =~= done);
                    done = done.push(op@);
                }
                set.insert(op);
            },
            Err(e) => {
                return Err(e);
            },
        }
    }
    assert(done + seq![] =~= done);
    Ok(set)
}

/// Writes every record of `operations`, in the set's order, to `out`. Nothing is written if
/// any record fails its check.
pub fn write_all(out: &mut Vec<u8>, operations: &OperationSet) -> (r: Result<(), ParseError>)
    ensures
        match write_all_spec(operations@) {
            Ok(b) => r is Ok && final(out)@ == old(out)@ + b,
            Err(e) => r matches Err(x) && x@ == e && final(out)@ == old(out)@,
        },
{
    let mut buf: Vec<u8> = Vec::new();
    let mut i: usize = 0;
    assert(operations@.subrange(0, operations@.len() as int) =~= operations@);
    assert(seq![] + seq![] =~= Seq::<u8>::empty());
    while i < operations.len()
        invariant
            i <= operations@.len(),
            write_all_spec(operations@) == match write_all_spec(
                operations@.subrange(i as int, operations@.len() as int),
            ) {
                Ok(rest) => Ok(buf@ + rest),
                Err(e) => Err(e),
            },
        decreases operations@.len() - i,
    {
        let ghost rest = operations@.subrange(i as int, operations@.len() as int);
        let ghost before = buf@;
        assert(rest[0] == operations@[i as int]);
        match write_operation(&mut buf, operations.get(i)) {
            Ok(()) => {
                proof {
                    assert(rest.drop_first() =~= operations@.subrange(
                        i + 1,
                        operations@.len() as int,
                    ));
                    let b = write_spec(operations@[i as int])->Ok_0;
                    assert(buf@ == before + b);
                    if let Ok(t) = write_all_spec(rest.drop_first()) {
                        assert(before + (b + t) =~= buf@ + t);
                    }
                }
                i += 1;
            },
            Err(e) => {
                return Err(e);
            },
        }
    }
    assert(operations@.subrange(i as int, operations@.len() as int) =~= seq![]);
    assert(buf@ + seq![] =~= buf@);
    let mut j: usize = 0;
    let ghost start = out@;
    while j < buf.len()
        invariant
            j <= buf@.len(),
            out@ == start + buf@.subrange(0, j as int),
        decreases buf@.len() - j,
    {
        out.push(buf[j]);
        j += 1;
        assert(out@ =~= start + buf@.subrange(0, j as int));
    }
    assert(buf@.subrange(0, buf@.len() as int) =~= buf@);
    Ok(())
}

proof fn lemma_u64_bytes(v: u64)
    ensures
        be64(u64_bytes(v), 0) == v,
{
    let b = u64_bytes(v);
    assert(b[0] == (v >> 56u64) as u8 && b[1] == (v >> 48u64) as u8 && b[2] == (v >> 40u64) as u8
        && b[3] == (v >> 32u64) as u8 && b[4] == (v >> 24u64) as u8 && b[5] == (v >> 16u64) as u8
        && b[6] == (v >> 8u64) as u8 && b[7] == v as u8);
    assert(((v >> 56u64) as u8 as u64) << 56u64 | ((v >> 48u64) as u8 as u64) << 48u64 | ((v
        >> 40u64) as u8 as u64) << 40u64 | ((v >> 32u64) as u8 as u64) << 32u64 | ((v >> 24u64)
        as u8 as u64) << 24u64 | ((v >> 16u64) as u8 as u64) << 16u64 | ((v >> 8u64) as u8 as u64)
        << 8u64 | (v as u8 as u64) == v) by (bit_vector);
}

proof fn lemma_u32_bytes(v: u32)
    ensures
        be32(u32_bytes(v), 0) == v,
{
    let b = u32_bytes(v);
    assert(b[0] == (v >> 24u32) as u8 && b[1] == (v >> 16u32) as u8 && b[2] == (v >> 8u32) as u8
        && b[3] == v as u8);
    assert(((v >> 24u32) as u8 as u32) << 24u32 | ((v >> 16u32) as u8 as u32) << 16u32 | ((v
        >> 8u32) as u8 as u32) << 8u32 | (v as u8 as u32) == v) by (bit_vector);
}

proof fn lemma_be64_at(b: Seq<u8>, at: int, v: u64)
    requires
        0 <= at,
        at + 8 <= b.len(),
        b.subrange(at, at + 8) == u64_bytes(v),
    ensures
        be64(b, at) == v,
{
    lemma_u64_bytes(v);
    let w = u64_bytes(v);
    assert(forall|k: int| 0 <= k < 8 ==> b[at + k] == #[trigger] w[k]) by {
        assert forall|k: int| 0 <= k < 8 implies b[at + k] == #[trigger] w[k] by {
            assert(b.subrange(at, at + 8)[k] == b[at + k]);
        }
    }
    assert(b[at] == w[0] && b[at + 1] == w[1] && b[at + 2] == w[2] && b[at + 3] == w[3] && b[at
        + 4] == w[4] && b[at + 5] == w[5] && b[at + 6] == w[6] && b[at + 7] == w[7]);
}

proof fn lemma_be32_at(b: Seq<u8>, at: int, v: u32)
    requires
        0 <= at,
        at + 4 <= b.len(),
        b.subrange(at, at + 4) == u32_bytes(v),
    ensures
        be32(b, at) == v,
{
    lemma_u32_bytes(v);
    let w = u32_bytes(v);
    assert(b.subrange(at, at + 4)[0] == b[at]);
    assert(b.subrange(at, at + 4)[1] == b[at + 1]);
    assert(b.subrange(at, at + 4)[2] == b[at + 2]);
    assert(b.subrange(at, at + 4)[3] == b[at + 3]);
}

#[verifier::rlimit(100)]
#[verifier::spinoff_prover]
proof fn lemma_encode_layout(op: OpView)
    ensures
        ({
            let b = encode(op);
            let desc = encode_utf8(op.description);
            &&& b.len() == 54 + desc.len()
            &&& b.subrange(0, 4) == magic()
            &&& b.subrange(8, 16) == u64_bytes(op.tx_id)
            &&& b[16] == op.tx_type.ordinal()
            &&& b.subrange(17, 25) == u64_bytes(op.from_user_id)
            &&& b.subrange(25, 33) == u64_bytes(op.to_user_id)
            &&& b.subrange(33, 41) == u64_bytes(op.amount as u64)
            &&& b.subrange(41, 49) == u64_bytes(op.timestamp)
            &&& b[49] == op.status.ordinal()
            &&& b.subrange(50, 54) == u32_bytes(desc.len() as u32)
            &&& b.subrange(54, 54 + desc.len() as int) == desc
        }),
{
    let b = encode(op);
    let desc = encode_utf8(op.description);
    let size = (54 + desc.len() - 8) as u32;
    let h = magic() + u32_bytes(size) + u64_bytes(op.tx_id) + seq![op.tx_type.ordinal()]
        + u64_bytes(op.from_user_id) + u64_bytes(op.to_user_id) + u64_bytes(op.amount as u64)
        + u64_bytes(op.timestamp) + seq![op.status.ordinal()] + u32_bytes(desc.len() as u32);
    assert(h =~= seq![
        0x59u8, 0x50u8, 0x42u8, 0x4Eu8,
        (size >> 24u32) as u8, (size >> 16u32) as u8, (size >> 8u32) as u8, size as u8,
        (op.tx_id >> 56u64) as u8, (op.tx_id >> 48u64) as u8, (op.tx_id >> 40u64) as u8,
        (op.tx_id >> 32u64) as u8, (op.tx_id >> 24u64) as u8, (op.tx_id >> 16u64) as u8,
        (op.tx_id >> 8u64) as u8, op.tx_id as u8,
        op.tx_type.ordinal(),
        (op.from_user_id >> 56u64) as u8, (op.from_user_id >> 48u64) as u8,
        (op.from_user_id >> 40u64) as u8, (op.from_user_id >> 32u64) as u8,
        (op.from_user_id >> 24u64) as u8, (op.from_user_id >> 16u64) as u8,
        (op.from_user_id >> 8u64) as u8, op.from_user_id as u8,
        (op.to_user_id >> 56u64) as u8, (op.to_user_id >> 48u64) as u8,
        (op.to_user_id >> 40u64) as u8, (op.to_user_id >> 32u64) as u8,
        (op.to_user_id >> 24u64) as u8, (op.to_user_id >> 16u64) as u8,
        (op.to_user_id >> 8u64) as u8, op.to_user_id as u8,
        ((op.amount as u64) >> 56u64) as u8, ((op.amount as u64) >> 48u64) as u8,
        ((op.amount as u64) >> 40u64) as u8, ((op.amount as u64) >> 32u64) as u8,
        ((op.amount as u64) >> 24u64) as u8, ((op.amount as u64) >> 16u64) as u8,
        ((op.amount as u64) >> 8u64) as u8, (op.amount as u64) as u8,
        (op.timestamp >> 56u64) as u8, (op.timestamp >> 48u64) as u8,
        (op.timestamp >> 40u64) as u8, (op.timestamp >> 32u64) as u8,
        (op.timestamp >> 24u64) as u8, (op.timestamp >> 16u64) as u8,
        (op.timestamp >> 8u64) as u8, op.timestamp as u8,
        op.status.ordinal(),
        ((desc.len() as u32) >> 24u32) as u8, ((desc.len() as u32) >> 16u32) as u8,
        ((desc.len() as u32) >> 8u32) as u8, (desc.len() as u32) as u8,
    ]);
    assert(b == h + desc);
    assert(b.subrange(0, 4) =~= magic());
    assert(b.subrange(8, 16) =~= u64_bytes(op.tx_id));
    assert(b.subrange(17, 25) =~= u64_bytes(op.from_user_id));
    assert(b.subrange(25, 33) =~= u64_bytes(op.to_user_id));
    assert(b.subrange(33, 41) =~= u64_bytes(op.amount as u64));
    assert(b.subrange(41, 49) =~= u64_bytes(op.timestamp));
    assert(b.subrange(50, 54) =~= u32_bytes(desc.len() as u32));
    assert(b.subrange(54, 54 + desc.len() as int) =~= desc);
}

/// Round trip of the binary codec: a valid record that fits its length fields, and whose
/// description normalization leaves as it is, reads back from its bytes unchanged, and the
/// reader stops right after it.
#[verifier::rlimit(100)]
#[verifier::spinoff_prover]
pub proof fn lemma_bin_round_trip(op: OpView)
    requires
        op.valid(),
        fits(op),
        normalize(op.description) == op.description,
    ensures
        write_spec(op) == Ok::<Seq<u8>, ErrorKind>(encode(op)),
        record_at(encode(op), 0) == Ok::<(OpView, int), ErrorKind>((op, encode(op).len() as int)),
        records_from(encode(op), 0) == Ok::<Seq<OpView>, ErrorKind>(seq![op]),
{
    let b = encode(op);
    let desc = encode_utf8(op.description);
    lemma_encode_layout(op);
    lemma_be64_at(b, 8, op.tx_id);
    lemma_be64_at(b, 17, op.from_user_id);
    lemma_be64_at(b, 25, op.to_user_id);
    lemma_be64_at(b, 33, op.amount as u64);
    lemma_be64_at(b, 41, op.timestamp);
    lemma_be32_at(b, 50, desc.len() as u32);
    let a = op.amount;
    assert((a as u64) as i64 == a) by (bit_vector);
    encode_utf8_valid_utf8(op.description);
    encode_utf8_decode_utf8(op.description);
    let r = record_at(b, 0);
    assert(r == Ok::<(OpView, int), ErrorKind>((op, b.len() as int)));
    assert(records_from(b, b.len() as int) == Ok::<Seq<OpView>, ErrorKind>(seq![]));
    assert(seq![op] + seq![] =~= seq![op]);
}

/// A stream that ends inside a record is an error, not a clean stop: every proper, non-empty
/// prefix of a record's bytes reads as an unexpected end.
#[verifier::rlimit(100)]
#[verifier::spinoff_prover]
pub proof fn lemma_bin_truncated(op: OpView, k: int)
    requires
        op.valid(),
        fits(op),
        0 < k < encode(op).len(),
    ensures
        records_from(encode(op).subrange(0, k), 0) == Err::<Seq<OpView>, ErrorKind>(ErrorKind::Eof),
{
    let b = encode(op);
    let t = b.subrange(0, k);
    let desc = encode_utf8(op.description);
    lemma_encode_layout(op);
    if k >= 4 {
        assert(t.subrange(0, 4) =~= b.subrange(0, 4));
    }
    if k >= 17 {
        assert(t[16] == b[16]);
    }
    if k >= 50 {
        assert(t[49] == b[49]);
    }
    if k >= 54 {
        assert(t.subrange(50, 54) =~= b.subrange(50, 54));
        lemma_be32_at(t, 50, desc.len() as u32);
    }
}

proof fn lemma_be_at_same(s: Seq<u8>, t: Seq<u8>, i: int, j: int, n: int)
    requires
        0 <= i,
        0 <= j,
        i + n <= s.len(),
        j + n <= t.len(),
        s.subrange(i, i + n) == t.subrange(j, j + n),
    ensures
        n >= 8 ==> be64(s, i) == be64(t, j),
        n >= 4 ==> be32(s, i) == be32(t, j),
{
    let a = s.subrange(i, i + n);
    let b = t.subrange(j, j + n);
    if n >= 4 {
        assert(s[i] == a[0] && t[j] == b[0]);
        assert(s[i + 1] == a[1] && t[j + 1] == b[1]);
        assert(s[i + 2] == a[2] && t[j + 2] == b[2]);
        assert(s[i + 3] == a[3] && t[j + 3] == b[3]);
    }
    if n >= 8 {
        assert(s[i + 4] == a[4] && t[j + 4] == b[4]);
        assert(s[i + 5] == a[5] && t[j + 5] == b[5]);
        assert(s[i + 6] == a[6] && t[j + 6] == b[6]);
        assert(s[i + 7] == a[7] && t[j + 7] == b[7]);
    }
}

/// What `record_at` reads of the stream after `p`, shifted by what comes before.
#[verifier::rlimit(100)]
#[verifier::spinoff_prover]
proof fn lemma_record_at_shift(x: Seq<u8>, y: Seq<u8>, p: int)
    requires
        0 <= p <= y.len(),
    ensures
        record_at(x + y, x.len() + p) == match record_at(y, p) {
            Ok((op, e)) => Ok((op, e + x.len())),
            Err(k) => Err(k),
        },
{
    let s = x + y;
    let m = x.len() as int;
    let n = y.len() - p;
    assert(s.subrange(m + p, s.len() as int) =~= y.subrange(p, y.len() as int));
    if n >= 4 {
        assert(s.subrange(m + p, m + p + 4) =~= y.subrange(p, p + 4));
    }
    if n >= 17 {
        assert(s[m + p + 16] == y[p + 16]);
        assert(s.subrange(m + p + 8, m + p + 16) =~= y.subrange(p + 8, p + 16));
        lemma_be_at_same(s, y, m + p + 8, p + 8, 8);
    }
    if n >= 50 {
        assert(s[m + p + 49] == y[p + 49]);
        assert(s.subrange(m + p + 17, m + p + 25) =~= y.subrange(p + 17, p + 25));
        assert(s.subrange(m + p + 25, m + p + 33) =~= y.subrange(p + 25, p + 33));
        assert(s.subrange(m + p + 33, m + p + 41) =~= y.subrange(p + 33, p + 41));
        assert(s.subrange(m + p + 41, m + p + 49) =~= y.subrange(p + 41, p + 49));
        lemma_be_at_same(s, y, m + p + 17, p + 17, 8);
        lemma_be_at_same(s, y, m + p + 25, p + 25, 8);
        lemma_be_at_same(s, y, m + p + 33, p + 33, 8);
        lemma_be_at_same(s, y, m + p + 41, p + 41, 8);
    }
    if n >= 54 {
        assert(s.subrange(m + p + 50, m + p + 54) =~= y.subrange(p + 50, p + 54));
        lemma_be_at_same(s, y, m + p + 50, p + 50, 4);
        let len = be32(y, p + 50) as int;
        if n >= 54 + len {
            assert(s.subrange(m + p + 54, m + p + 54 + len) =~= y.subrange(p + 54, p + 54 + len));
        }
    }
}

/// What `record_at` reads of a complete record does not change when more bytes follow.
proof fn lemma_record_at_extend(b: Seq<u8>, c: Seq<u8>, op: OpView)
    requires
        record_at(b, 0) == Ok::<(OpView, int), ErrorKind>((op, b.len() as int)),
    ensures
        record_at(b + c, 0) == Ok::<(OpView, int), ErrorKind>((op, b.len() as int)),
{
    let s = b + c;
    assert(s.subrange(0, 4) =~= b.subrange(0, 4));
    assert(s[16] == b[16]);
    assert(s[49] == b[49]);
    assert(s.subrange(8, 16) =~= b.subrange(8, 16));
    assert(s.subrange(17, 25) =~= b.subrange(17, 25));
    assert(s.subrange(25, 33) =~= b.subrange(25, 33));
    assert(s.subrange(33, 41) =~= b.subrange(33, 41));
    assert(s.subrange(41, 49) =~= b.subrange(41, 49));
    assert(s.subrange(50, 54) =~= b.subrange(50, 54));
    lemma_be_at_same(s, b, 8, 8, 8);
    lemma_be_at_same(s, b, 17, 17, 8);
    lemma_be_at_same(s, b, 25, 25, 8);
    lemma_be_at_same(s, b, 33, 33, 8);
    lemma_be_at_same(s, b, 41, 41, 8);
    lemma_be_at_same(s, b, 50, 50, 4);
    let len = be32(b, 50) as int;
    assert(s.subrange(54, 54 + len) =~= b.subrange(54, 54 + len));
}

proof fn lemma_records_shift(x: Seq<u8>, y: Seq<u8>, p: int)
    requires
        0 <= p <= y.len(),
    ensures
        records_from(x + y, x.len() + p) == records_from(y, p),
    decreases y.len() - p,
{
    lemma_record_at_shift(x, y, p);
    if p < y.len() {
        if let Ok((op, e)) = record_at(y, p) {
            if e > p {
                if e <= y.len() {
                    lemma_records_shift(x, y, e);
                } else {
                    assert(records_from(x + y, x.len() + e) == Ok::<Seq<OpView>, ErrorKind>(seq![]));
                    assert(records_from(y, e) == Ok::<Seq<OpView>, ErrorKind>(seq![]));
                }
            }
        }
    }
}

/// A stream may end between records: a complete record followed by a stream reads as that
/// record followed by what the stream holds, so records written one after another read back
/// whole, and the empty stream holds none.
#[verifier::rlimit(100)]
#[verifier::spinoff_prover]
pub proof fn lemma_bin_stream(op: OpView, rest: Seq<u8>)
    requires
        op.valid(),
        fits(op),
        normalize(op.description) == op.description,
    ensures
        records_from(encode(op) + rest, 0) == match records_from(rest, 0) {
            Ok(r) => Ok(seq![op] + r),
            Err(e) => Err(e),
        },
        records_from(Seq::<u8>::empty(), 0) == Ok::<Seq<OpView>, ErrorKind>(seq![]),
{
    let b = encode(op);
    lemma_bin_round_trip(op);
    lemma_encode_layout(op);
    lemma_record_at_extend(b, rest, op);
    lemma_records_shift(b, rest, 0);
    assert(b.len() > 0);
}

/// Round trip of the binary codec for a whole set: writing records with distinct identifiers,
/// each valid, fitting its length fields and left as it is by description normalization,
/// and reading the bytes back gives the same records in the same order, and the same set.
#[verifier::rlimit(100)]
#[verifier::spinoff_prover]
pub proof fn lemma_bin_set_round_trip(ops: Seq<OpView>)
    requires
        unique_ids(ops),
        forall|i: int|
            0 <= i < ops.len() ==> (#[trigger] ops[i]).valid() && fits(ops[i]) && normalize(
                ops[i].description,
            ) == ops[i].description,
    ensures
        write_all_spec(ops) is Ok,
        records_from(write_all_spec(ops)->Ok_0, 0) == Ok::<Seq<OpView>, ErrorKind>(ops),
        collect(ops) == ops,
    decreases ops.len(),
{
    lemma_collect_unique(ops);
    if ops.len() == 0 {
        assert(records_from(Seq::<u8>::empty(), 0) == Ok::<Seq<OpView>, ErrorKind>(seq![]));
        assert(ops =~= seq![]);
    } else {
        let rest = ops.drop_first();
        assert forall|i: int| 0 <= i < rest.len() implies (#[trigger] rest[i]).valid() && fits(
            rest[i],
        ) && normalize(rest[i].description) == rest[i].description by {
            assert(rest[i] == ops[i + 1]);
        }
        lemma_bin_set_round_trip(rest);
        assert(ops[0].valid() && fits(ops[0]));
        lemma_bin_round_trip(ops[0]);
        lemma_bin_stream(ops[0], write_all_spec(rest)->Ok_0);
        assert(seq![ops[0]] + rest =~= ops);
    }
}

/// What a record that reads from `b` at `p` reads as when the stream is cut at `k`: the same
/// record when the cut falls at or after its end, an unexpected end when it falls inside it.
#[verifier::rlimit(100)]
#[verifier::spinoff_prover]
proof fn lemma_record_at_cut(b: Seq<u8>, p: int, k: int)
    requires
        0 <= p < k <= b.len(),
        record_at(b, p) is Ok,
    ensures
        record_at(b, p)->Ok_0.1 <= k ==> record_at(b.subrange(0, k), p) == record_at(b, p),
        record_at(b, p)->Ok_0.1 > k ==> record_at(b.subrange(0, k), p) == Err::<
            (OpView, int),
            ErrorKind,
        >(ErrorKind::Eof),
{
    let t = b.subrange(0, k);
    let n = k - p;
    if n >= 4 {
        assert(t.subrange(p, p + 4) =~= b.subrange(p, p + 4));
    }
    if n >= 17 {
        assert(t[p + 16] == b[p + 16]);
        assert(t.subrange(p + 8, p + 16) =~= b.subrange(p + 8, p + 16));
        lemma_be_at_same(t, b, p + 8, p + 8, 8);
    }
    if n >= 50 {
        assert(t[p + 49] == b[p + 49]);
        assert(t.subrange(p + 17, p + 25) =~= b.subrange(p + 17, p + 25));
        assert(t.subrange(p + 25, p + 33) =~= b.subrange(p + 25, p + 33));
        assert(t.subrange(p + 33, p + 41) =~= b.subrange(p + 33, p + 41));
        assert(t.subrange(p + 41, p + 49) =~= b.subrange(p + 41, p + 49));
        lemma_be_at_same(t, b, p + 17, p + 17, 8);
        lemma_be_at_same(t, b, p + 25, p + 25, 8);
        lemma_be_at_same(t, b, p + 33, p + 33, 8);
        lemma_be_at_same(t, b, p + 41, p + 41, 8);
    }
    if n >= 54 {
        assert(t.subrange(p + 50, p + 54) =~= b.subrange(p + 50, p + 54));
        lemma_be_at_same(t, b, p + 50, p + 50, 4);
        let len = be32(b, p + 50) as int;
        if n >= 54 + len {
            assert(t.subrange(p + 54, p + 54 + len) =~= b.subrange(p + 54, p + 54 + len));
        }
    }
}

/// The records of `b` from `p` on that end by the cut at `k`, or an unexpected end when the
/// cut falls inside a record.
pub open spec fn records_before_cut(b: Seq<u8>, p: int, k: int) -> Result<Seq<OpView>, ErrorKind>
    decreases b.len() - p,
{
    if p >= k || p >= b.len() {
        Ok(seq![])
    } else {
        match record_at(b, p) {
            Err(e) => Err(e),
            Ok((op, end)) => if end <= p {
                Err(ErrorKind::Eof)
            } else if end > k {
                Err(ErrorKind::Eof)
            } else {
                match records_before_cut(b, end, k) {
                    Err(e) => Err(e),
                    Ok(rest) => Ok(seq![op] + rest),
                }
            },
        }
    }
}

/// A readable stream cut anywhere reads as the records that end by the cut when the cut falls
/// between records, and as an unexpected end when it falls inside a record.
pub proof fn lemma_bin_cut(b: Seq<u8>, p: int, k: int)
    requires
        0 <= p <= k <= b.len(),
        records_from(b, p) is Ok,
    ensures
        records_from(b.subrange(0, k), p) == records_before_cut(b, p, k),
        records_before_cut(b, p, k) is Err ==> records_before_cut(b, p, k)
            == Err::<Seq<OpView>, ErrorKind>(ErrorKind::Eof),
    decreases b.len() - p,
{
    if p < k {
        lemma_record_at_cut(b, p, k);
        let e = record_at(b, p)->Ok_0.1;
        if e <= k {
            lemma_bin_cut(b, e, k);
        }
    }
}

} // verus!
