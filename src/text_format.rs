use crate::chars::{
    append_i64, append_string, append_u64, dec_int, dec_nat, eq_label, int_message, int_reason,
    lacks, lemma_dec_lacks, lemma_lacks_concat, lemma_lines_cons, lemma_parse_dec_i64,
    lemma_parse_dec_u64, lemma_unquote, lines, lines_scan, next_line, parse_i64, parse_i64_spec,
    parse_u64, parse_u64_spec, push_char, reported_failure, str_chars, strip_quote_pair, trim,
    trim_end, trim_range, trim_start, unquoted_string, white_space,
};
use crate::collection::{collect, lemma_collect_unique, unique_ids, OperationSet};
use crate::csv_format::line_fields;
use crate::error::{ErrorKind, ParseError};
use crate::operation::{
    lemma_status_label, lemma_type_label, OpView, Operation, OperationStatus, OperationType,
};
use vstd::prelude::*;
use vstd::seq_lib::lemma_concat_associative;
use vstd::string::*;

verus! {

/// The position of the first colon of `t` at or after `i`, or -1.
pub open spec fn colon_at(t: Seq<char>, i: int) -> int
    decreases t.len() - i,
{
    if i >= t.len() {
        -1
    } else if t[i] == ':' {
        i
    } else {
        colon_at(t, i + 1)
    }
}

/// The key and value of a `KEY: value` line: split at the first colon, both sides trimmed.
pub open spec fn key_value(t: Seq<char>) -> Option<(Seq<char>, Seq<char>)> {
    let c = colon_at(t, 0);
    if c < 0 {
        None
    } else {
        Some((trim(t.subrange(0, c)), trim(t.subrange(c + 1, t.len() as int))))
    }
}

/// The value of `key` in a block's entries; a later entry wins.
pub open spec fn lookup(entries: Seq<(Seq<char>, Seq<char>)>, key: Seq<char>) -> Option<Seq<char>>
    decreases entries.len(),
{
    if entries.len() == 0 {
        None
    } else if entries.last().0 == key {
        Some(entries.last().1)
    } else {
        lookup(entries.drop_last(), key)
    }
}

/// The error for a block without `key`: a format error that names the key.
pub open spec fn missing_spec(key: Seq<char>) -> ErrorKind {
    ErrorKind::Format("Missing "@ + key)
}

/// An unsigned field of a block.
pub open spec fn u64_field(e: Seq<(Seq<char>, Seq<char>)>, key: Seq<char>) -> Result<u64, ErrorKind> {
    match lookup(e, key) {
        None => Err(missing_spec(key)),
        Some(v) => match parse_u64_spec(v) {
            None => Err(ErrorKind::Field(key)),
            Some(x) => Ok(x),
        },
    }
}

/// The amount of a block.
pub open spec fn amount_field(e: Seq<(Seq<char>, Seq<char>)>) -> Result<i64, ErrorKind> {
    match lookup(e, "AMOUNT"@) {
        None => Err(missing_spec("AMOUNT"@)),
        Some(v) => match parse_i64_spec(v) {
            None => Err(ErrorKind::Field("AMOUNT"@)),
            Some(x) => Ok(x),
        },
    }
}

/// The kind of a block.
pub open spec fn type_field(e: Seq<(Seq<char>, Seq<char>)>) -> Result<OperationType, ErrorKind> {
    match lookup(e, "TX_TYPE"@) {
        None => Err(missing_spec("TX_TYPE"@)),
        Some(v) => match OperationType::from_label(v) {
            None => Err(ErrorKind::Field("TX_TYPE"@)),
            Some(x) => Ok(x),
        },
    }
}

/// The outcome of a block.
pub open spec fn status_field(e: Seq<(Seq<char>, Seq<char>)>) -> Result<OperationStatus, ErrorKind> {
    match lookup(e, "STATUS"@) {
        None => Err(missing_spec("STATUS"@)),
        Some(v) => match OperationStatus::from_label(v) {
            None => Err(ErrorKind::Field("STATUS"@)),
            Some(x) => Ok(x),
        },
    }
}

/// The record of a block's entries; fields are read, and fail, in the order of the record.
pub open spec fn record_spec(e: Seq<(Seq<char>, Seq<char>)>) -> Result<OpView, ErrorKind> {
    let tx_id = u64_field(e, "TX_ID"@);
    let tx_type = type_field(e);
    let from = u64_field(e, "FROM_USER_ID"@);
    let to = u64_field(e, "TO_USER_ID"@);
    let amount = amount_field(e);
    let timestamp = u64_field(e, "TIMESTAMP"@);
    let status = status_field(e);
    let desc = lookup(e, "DESCRIPTION"@);
    if tx_id is Err {
        Err(tx_id->Err_0)
    } else if tx_type is Err {
        Err(tx_type->Err_0)
    } else if from is Err {
        Err(from->Err_0)
    } else if to is Err {
        Err(to->Err_0)
    } else if amount is Err {
        Err(amount->Err_0)
    } else if timestamp is Err {
        Err(timestamp->Err_0)
    } else if status is Err {
        Err(status->Err_0)
    } else if desc is None {
        Err(missing_spec("DESCRIPTION"@))
    } else {
        Ok(
            OpView {
                tx_id: tx_id->Ok_0,
                tx_type: tx_type->Ok_0,
                from_user_id: from->Ok_0,
                to_user_id: to->Ok_0,
                amount: amount->Ok_0,
                timestamp: timestamp->Ok_0,
                status: status->Ok_0,
                description: strip_quote_pair(desc->0),
            },
        )
    }
}

/// The result of closing a block with entries `cur` in front of the records `tail`.
pub open spec fn flush(cur: Seq<(Seq<char>, Seq<char>)>, tail: Result<Seq<OpView>, ErrorKind>) -> Result<
    Seq<OpView>,
    ErrorKind,
> {
    if cur.len() == 0 {
        tail
    } else {
        match record_spec(cur) {
            Err(e) => Err(e),
            Ok(op) => match op.check() {
                Some(e) => Err(e),
                None => match tail {
                    Ok(rest) => Ok(seq![op] + rest),
                    Err(e) => Err(e),
                },
            },
        }
    }
}

/// The records of the lines `ls`, with the entries `cur` of the open block before them.
/// Blank lines close a block; lines starting with `#` are comments; other lines without a
/// colon are ignored.
pub open spec fn blocks(ls: Seq<Seq<char>>, cur: Seq<(Seq<char>, Seq<char>)>) -> Result<
    Seq<OpView>,
    ErrorKind,
>
    decreases ls.len(),
{
    if ls.len() == 0 {
        flush(cur, Ok(seq![]))
    } else {
        let t = trim(ls[0]);
        if t.len() == 0 {
            flush(cur, blocks(ls.drop_first(), seq![]))
        } else if t[0] == '#' {
            blocks(ls.drop_first(), cur)
        } else {
            match key_value(t) {
                Some(kv) => blocks(ls.drop_first(), cur.push(kv)),
                None => blocks(ls.drop_first(), cur),
            }
        }
    }
}

/// The records of a text in blocks, or what is wrong with it.
pub open spec fn parse_spec(s: Seq<char>) -> Result<Seq<OpView>, ErrorKind> {
    blocks(lines(s), seq![])
}

/// One `KEY: value` line, its prefix given with the colon and space, ended by a newline.
pub open spec fn kv_line(prefix: Seq<char>, v: Seq<char>) -> Seq<char> {
    prefix + v + seq!['\n']
}

/// The block that holds `op`: one line per field, in the order of the record, the description
/// quoted as it is.
pub open spec fn block_spec(op: OpView) -> Seq<char> {
    kv_line("TX_ID: "@, dec_nat(op.tx_id as nat)) + (kv_line("TX_TYPE: "@, op.tx_type.label())
        + (kv_line("FROM_USER_ID: "@, dec_nat(op.from_user_id as nat)) + (kv_line(
        "TO_USER_ID: "@,
        dec_nat(op.to_user_id as nat),
    ) + (kv_line("AMOUNT: "@, dec_int(op.amount as int)) + (kv_line(
        "TIMESTAMP: "@,
        dec_nat(op.timestamp as nat),
    ) + (kv_line("STATUS: "@, op.status.label()) + kv_line(
        "DESCRIPTION: "@,
        seq!['"'] + op.description + seq!['"'],
    )))))))
}

/// The blocks of `ops`, separated by one blank line (none before the first when `first`), or
/// the first record that fails its check.
pub open spec fn write_blocks(ops: Seq<OpView>, first: bool) -> Result<Seq<char>, ErrorKind>
    decreases ops.len(),
{
    if ops.len() == 0 {
        Ok(seq![])
    } else {
        match ops[0].check() {
            Some(e) => Err(e),
            None => match write_blocks(ops.drop_first(), false) {
                Ok(rest) => Ok(
                    (if first {
                        seq![]
                    } else {
                        seq!['\n']
                    }) + block_spec(ops[0]) + rest,
                ),
                Err(e) => Err(e),
            },
        }
    }
}

/// A text of `ops`: one block per record.
pub open spec fn write_spec(ops: Seq<OpView>) -> Result<Seq<char>, ErrorKind> {
    write_blocks(ops, true)
}

/// The entries of a block, each held as the bounds of its key and its value in `cs`.
pub open spec fn entries_view(cs: Seq<char>, e: Seq<(usize, usize, usize, usize)>) -> Seq<
    (Seq<char>, Seq<char>),
> {
    e.map_values(
        |t: (usize, usize, usize, usize)|
            (cs.subrange(t.0 as int, t.1 as int), cs.subrange(t.2 as int, t.3 as int)),
    )
}

pub open spec fn entries_ok(cs: Seq<char>, e: Seq<(usize, usize, usize, usize)>) -> bool {
    forall|k: int|
        0 <= k < e.len() ==> #[trigger] e[k].0 <= e[k].1 <= cs.len() && e[k].2 <= e[k].3
            <= cs.len()
}

/// The bounds of the value of `key` in the entries `e`, the later entry winning.
fn find(cs: &[char], e: &Vec<(usize, usize, usize, usize)>, key: &str) -> (r: Option<
    (usize, usize),
>)
    requires
        entries_ok(cs@, e@),
    ensures
        match lookup(entries_view(cs@, e@), key@) {
            None => r is None,
            Some(v) => r matches Some(b) && b.0 <= b.1 <= cs@.len() && cs@.subrange(
                b.0 as int,
                b.1 as int,
            ) == v,
        },
{
    let ghost all = entries_view(cs@, e@);
    let mut i = e.len();
    assert(all.subrange(0, i as int) =~= all);
    while i > 0
        invariant
            i <= e@.len(),
            entries_ok(cs@, e@),
            all == entries_view(cs@, e@),
            lookup(all, key@) == lookup(all.subrange(0, i as int), key@),
        decreases i,
    {
        let t = e[i - 1];
        let ghost part = all.subrange(0, i as int);
        assert(part.last() == all[i - 1]);
        assert(part.drop_last() =~= all.subrange(0, i - 1));
        if eq_label(cs, t.0, t.1, key) {
            return Some((t.2, t.3));
        }
        i -= 1;
    }
    None
}

fn field_error(field: &str, cs: &[char], lo: usize, hi: usize, signed: bool) -> (r: ParseError)
    requires
        lo <= hi <= cs@.len(),
    ensures
        r@ == ErrorKind::Field(field@),
        r matches ParseError::InvalidField { reason, .. } && reason@ == int_message(
            reported_failure(cs@.subrange(lo as int, hi as int), signed),
        ),
{
    ParseError::field(field, int_reason(cs, lo, hi, signed))
}

fn missing(key: &str) -> (r: ParseError)
    ensures
        r@ == missing_spec(key@),
{
    let mut detail = String::from_str("Missing ");
    detail.append(key);
    ParseError::InvalidFormat(detail)
}

fn read_u64_field(cs: &[char], e: &Vec<(usize, usize, usize, usize)>, key: &str) -> (r: Result<
    u64,
    ParseError,
>)
    requires
        entries_ok(cs@, e@),
    ensures
        match u64_field(entries_view(cs@, e@), key@) {
            Ok(v) => r == Ok::<u64, ParseError>(v),
            Err(k) => r matches Err(x) && x@ == k,
        },
{
    match find(cs, e, key) {
        None => Err(missing(key)),
        Some((a, b)) => match parse_u64(cs, a, b) {
            Some(v) => Ok(v),
            None => Err(field_error(key, cs, a, b, false)),
        },
    }
}

/// Reads the record of a block's entries.
fn parse_record(cs: &[char], e: &Vec<(usize, usize, usize, usize)>) -> (r: Result<
    Operation,
    ParseError,
>)
    requires
        entries_ok(cs@, e@),
    ensures
        match record_spec(entries_view(cs@, e@)) {
            Ok(op) => r matches Ok(o) && o@ == op,
            Err(k) => r matches Err(x) && x@ == k,
        },
{
    let tx_id = match read_u64_field(cs, e, "TX_ID") {
        Ok(v) => v,
        Err(x) => {
            return Err(x);
        },
    };
    let tx_type = match find(cs, e, "TX_TYPE") {
        None => {
            return Err(missing("TX_TYPE"));
        },
        Some((a, b)) => match OperationType::from_chars(cs, a, b) {
            Ok(t) => t,
            Err(x) => {
                return Err(x);
            },
        },
    };
    let from_user_id = match read_u64_field(cs, e, "FROM_USER_ID") {
        Ok(v) => v,
        Err(x) => {
            return Err(x);
        },
    };
    let to_user_id = match read_u64_field(cs, e, "TO_USER_ID") {
        Ok(v) => v,
        Err(x) => {
            return Err(x);
        },
    };
    let amount = match find(cs, e, "AMOUNT") {
        None => {
            return Err(missing("AMOUNT"));
        },
        Some((a, b)) => match parse_i64(cs, a, b) {
            Some(v) => v,
            None => {
                return Err(field_error("AMOUNT", cs, a, b, true));
            },
        },
    };
    let timestamp = match read_u64_field(cs, e, "TIMESTAMP") {
        Ok(v) => v,
        Err(x) => {
            return Err(x);
        },
    };
    let status = match find(cs, e, "STATUS") {
        None => {
            return Err(missing("STATUS"));
        },
        Some((a, b)) => match OperationStatus::from_chars(cs, a, b) {
            Ok(s) => s,
            Err(x) => {
                return Err(x);
            },
        },
    };
    let description = match find(cs, e, "DESCRIPTION") {
        None => {
            return Err(missing("DESCRIPTION"));
        },
        Some((a, b)) => unquoted_string(cs, a, b),
    };
    Ok(
        Operation {
            tx_id,
            tx_type,
            from_user_id,
            to_user_id,
            amount,
            timestamp,
            status,
            description,
        },
    )
}

/// The position of the first colon in `cs[lo..hi]`.
fn find_colon(cs: &[char], lo: usize, hi: usize) -> (r: Option<usize>)
    requires
        lo <= hi <= cs@.len(),
    ensures
        match r {
            None => colon_at(cs@.subrange(lo as int, hi as int), 0) == -1,
            Some(c) => lo <= c < hi && colon_at(cs@.subrange(lo as int, hi as int), 0) == c - lo,
        },
{
    let ghost t = cs@.subrange(lo as int, hi as int);
    let mut i = lo;
    while i < hi
        invariant
            lo <= i <= hi <= cs@.len(),
            t == cs@.subrange(lo as int, hi as int),
            colon_at(t, 0) == colon_at(t, i - lo),
        decreases hi - i,
    {
        if cs[i] == ':' {
            return Some(i);
        }
        i += 1;
    }
    None
}

/// Reads a text of `KEY: value` blocks. Records that share a `tx_id` collapse into the later
/// one.
pub fn parse_all(input: &str) -> (r: Result<OperationSet, ParseError>)
    ensures
        match parse_spec(input@) {
            Ok(ops) => r matches Ok(s) && s@ == collect(ops) && s.wf(),
            Err(e) => r matches Err(x) && x@ == e,
        },
{
    let cs = str_chars(input);
    let ghost s = cs@;
    let mut set = OperationSet::new();
    let mut entries: Vec<(usize, usize, usize, usize)> = Vec::new();
    let mut pos: usize = 0;
    let ghost mut done: Seq<OpView> = seq![];
    assert(entries_view(s, entries@) =~= seq![]);
    while pos < cs.len()
        invariant
            pos <= cs@.len(),
            s == cs@,
            s == input@,
            set.wf(),
            set@ == collect(done),
            entries_ok(s, entries@),
            parse_spec(s) == match blocks(
                lines_scan(s, pos as int, pos as int),
                entries_view(s, entries@),
            ) {
                Ok(rest) => Ok(done + rest),
                Err(e) => Err(e),
            },
        decreases cs@.len() - pos,
    {
        let (end, next) = next_line(cs.as_slice(), pos);
        let ghost line = cs@.subrange(pos as int, end as int);
        let ghost tail = lines_scan(s, next as int, next as int);
        let ghost cur = entries_view(s, entries@);
        assert(lines_scan(s, pos as int, pos as int).drop_first() =~= tail);
        assert(lines_scan(s, pos as int, pos as int)[0] == line);
        let (a, b) = trim_range(cs.as_slice(), pos, end);
        let ghost t = cs@.subrange(a as int, b as int);
        if a == b {
            if entries.len() > 0 {
                let op = match parse_record(cs.as_slice(), &entries) {
                    Ok(op) => op,
                    Err(e) => {
                        return Err(e);
                    },
                };
                match op.validate() {
                    Ok(()) => {},
                    Err(e) => {
                        return Err(e);
                    },
                }
                proof {
                    if let Ok(rest) = blocks(tail, seq![]) {
                        assert(done + (seq![op@] + rest) =~= done.push(op@) + rest);
                    }
                    assert(done.push(op@).drop_last() =~= done);
                    done = done.push(op@);
                }
                set.insert(op);
                entries.clear();
            }
            assert(entries_view(s, entries@) =~= seq![]);
        } else if cs[a] == '#' {
        } else {
            match find_colon(cs.as_slice(), a, b) {
                Some(c) => {
                    let (k0, k1) = trim_range(cs.as_slice(), a, c);
                    let (v0, v1) = trim_range(cs.as_slice(), c + 1, b);
                    assert(t.subrange(0, c - a) =~= cs@.subrange(a as int, c as int));
                    assert(t.subrange(c - a + 1, t.len() as int) =~= cs@.subrange(
                        c + 1,
                        b as int,
                    ));
                    let ghost before = entries@;
                    entries.push((k0, k1, v0, v1));
                    assert(entries_view(s, entries@) =~= entries_view(s, before).push(
                        (cs@.subrange(k0 as int, k1 as int), cs@.subrange(v0 as int, v1 as int)),
                    ));
                },
                None => {},
            }
        }
        pos = next;
    }
    assert(lines_scan(s, pos as int, pos as int) =~= seq![]);
    if entries.len() > 0 {
        let op = match parse_record(cs.as_slice(), &entries) {
            Ok(op) => op,
            Err(e) => {
                return Err(e);
            },
        };
        match op.validate() {
            Ok(()) => {},
            Err(e) => {
                return Err(e);
            },
        }
        proof {
            assert(done + (seq![op@] + seq![]) =~= done.push(op@));
            assert(done.push(op@).drop_last() =~= done);
            done = done.push(op@);
        }
        set.insert(op);
    } else {
        assert(done + seq![] =~= done);
    }
    Ok(set)
}

/// Appends the block that holds `op`.
fn write_block(out: &mut String, op: &Operation)
    ensures
        final(out)@ == old(out)@ + block_spec(op@),
{
    let ghost v = op@;
    let ghost s0 = out@;
    out.append("TX_ID: ");
    append_u64(out, op.tx_id);
    push_char(out, '\n');
    let ghost l0 = kv_line("TX_ID: "@, dec_nat(v.tx_id as nat));
    assert(out@ =~= s0 + l0);
    let ghost s1 = out@;
    out.append("TX_TYPE: ");
    out.append(op.tx_type.as_str());
    push_char(out, '\n');
    let ghost l1 = kv_line("TX_TYPE: "@, v.tx_type.label());
    assert(out@ =~= s1 + l1);
    let ghost s2 = out@;
    out.append("FROM_USER_ID: ");
    append_u64(out, op.from_user_id);
    push_char(out, '\n');
    let ghost l2 = kv_line("FROM_USER_ID: "@, dec_nat(v.from_user_id as nat));
    assert(out@ =~= s2 + l2);
    let ghost s3 = out@;
    out.append("TO_USER_ID: ");
    append_u64(out, op.to_user_id);
    push_char(out, '\n');
    let ghost l3 = kv_line("TO_USER_ID: "@, dec_nat(v.to_user_id as nat));
    assert(out@ =~= s3 + l3);
    let ghost s4 = out@;
    out.append("AMOUNT: ");
    append_i64(out, op.amount);
    push_char(out, '\n');
    let ghost l4 = kv_line("AMOUNT: "@, dec_int(v.amount as int));
    assert(out@ =~= s4 + l4);
    let ghost s5 = out@;
    out.append("TIMESTAMP: ");
    append_u64(out, op.timestamp);
    push_char(out, '\n');
    let ghost l5 = kv_line("TIMESTAMP: "@, dec_nat(v.timestamp as nat));
    assert(out@ =~= s5 + l5);
    let ghost s6 = out@;
    out.append("STATUS: ");
    out.append(op.status.as_str());
    push_char(out, '\n');
    let ghost l6 = kv_line("STATUS: "@, v.status.label());
    assert(out@ =~= s6 + l6);
    let ghost s7 = out@;
    out.append("DESCRIPTION: ");
    push_char(out, '"');
    append_string(out, &op.description);
    push_char(out, '"');
    push_char(out, '\n');
    let ghost l7 = kv_line("DESCRIPTION: "@, seq!['"'] + v.description + seq!['"']);
    assert(out@ =~= s7 + l7);
    proof {
        lemma_concat_associative(s6, l6, l7);
        lemma_concat_associative(s5, l5, l6 + l7);
        lemma_concat_associative(s4, l4, l5 + (l6 + l7));
        lemma_concat_associative(s3, l3, l4 + (l5 + (l6 + l7)));
        lemma_concat_associative(s2, l2, l3 + (l4 + (l5 + (l6 + l7))));
        lemma_concat_associative(s1, l1, l2 + (l3 + (l4 + (l5 + (l6 + l7)))));
        lemma_concat_associative(s0, l0, l1 + (l2 + (l3 + (l4 + (l5 + (l6 + l7))))));
    }
}

/// Writes `operations` as blocks to `out`, in the set's order. Nothing is written if any
/// record fails its check.
pub fn write_all(out: &mut String, operations: &OperationSet) -> (r: Result<(), ParseError>)
    ensures
        match write_spec(operations@) {
            Ok(t) => r is Ok && final(out)@ == old(out)@ + t,
            Err(e) => r matches Err(x) && x@ == e && final(out)@ == old(out)@,
        },
{
    let mut body = String::new();
    let mut i: usize = 0;
    assert(operations@.subrange(0, operations@.len() as int) =~= operations@);
    assert(seq![] + seq![] =~= Seq::<char>::empty());
    while i < operations.len()
        invariant
            i <= operations@.len(),
            write_spec(operations@) == match write_blocks(
                operations@.subrange(i as int, operations@.len() as int),
                i == 0,
            ) {
                Ok(rest) => Ok(body@ + rest),
                Err(e) => Err(e),
            },
        decreases operations@.len() - i,
    {
        let ghost rest = operations@.subrange(i as int, operations@.len() as int);
        let ghost before = body@;
        let op = operations.get(i);
        assert(rest[0] == op@);
        match op.validate() {
            Ok(()) => {},
            Err(e) => {
                return Err(e);
            },
        }
        if i > 0 {
            push_char(&mut body, '\n');
        }
        write_block(&mut body, op);
        proof {
            assert(rest.drop_first() =~= operations@.subrange(i + 1, operations@.len() as int));
            if let Ok(t) = write_blocks(rest.drop_first(), false) {
                let sep: Seq<char> = if i == 0 {
                    seq![]
                } else {
                    seq!['\n']
                };
                assert(before + (sep + block_spec(op@) + t) =~= body@ + t);
            }
        }
        i += 1;
    }
    assert(operations@.subrange(i as int, operations@.len() as int) =~= seq![]);
    assert(body@ + seq![] =~= body@);
    append_string(out, &body);
    Ok(())
}

/// The keys of a block, in the order they are written.
pub open spec fn keys() -> Seq<Seq<char>> {
    seq![
        "TX_ID"@,
        "TX_TYPE"@,
        "FROM_USER_ID"@,
        "TO_USER_ID"@,
        "AMOUNT"@,
        "TIMESTAMP"@,
        "STATUS"@,
        "DESCRIPTION"@,
    ]
}

/// The `k`-th line of the block that holds `op`.
pub open spec fn block_line(op: OpView, k: int) -> Seq<char> {
    keys()[k] + seq![':', ' '] + line_fields(op)[k]
}

/// The lines of the block that holds `op`, from the `k`-th on, each ended by a newline.
pub open spec fn block_from(op: OpView, k: int) -> Seq<char>
    decreases 8 - k,
{
    if k >= 8 {
        seq![]
    } else {
        block_line(op, k) + seq!['\n'] + block_from(op, k + 1)
    }
}

/// The entries a reader gathers from the block that holds `op`.
pub open spec fn entries_of(op: OpView) -> Seq<(Seq<char>, Seq<char>)> {
    Seq::new(8, |k: int| (keys()[k], line_fields(op)[k]))
}

proof fn lemma_keys()
    ensures
        forall|k: int|
            0 <= k < 8 ==> (#[trigger] keys()[k]).len() > 0 && lacks(keys()[k], ':') && lacks(
                keys()[k],
                '\n',
            ) && 65 <= keys()[k][0] as u32 <= 90 && 65 <= keys()[k].last() as u32 <= 90,
        forall|i: int, j: int| 0 <= i < j < 8 ==> keys()[i] != keys()[j],
{
    reveal_strlit("TX_ID");
    reveal_strlit("TX_TYPE");
    reveal_strlit("FROM_USER_ID");
    reveal_strlit("TO_USER_ID");
    reveal_strlit("AMOUNT");
    reveal_strlit("TIMESTAMP");
    reveal_strlit("STATUS");
    reveal_strlit("DESCRIPTION");
    let k = keys();
    assert(k[0].len() == 5 && k[1].len() == 7 && k[2].len() == 12 && k[3].len() == 10
        && k[4].len() == 6 && k[5].len() == 9 && k[6].len() == 6 && k[7].len() == 11);
    assert(k[4][0] != k[6][0]);
}

#[verifier::rlimit(100)]
#[verifier::spinoff_prover]
proof fn lemma_block_shape(op: OpView)
    ensures
        block_spec(op) == block_from(op, 0),
{
    let c = seq![':', ' '];
    let k = keys();
    assert("TX_ID: "@ == k[0] + c) by {
        reveal_strlit("TX_ID: ");
        reveal_strlit("TX_ID");
        assert("TX_ID: "@ =~= "TX_ID"@ + c);
    }
    assert("TX_TYPE: "@ == k[1] + c) by {
        reveal_strlit("TX_TYPE: ");
        reveal_strlit("TX_TYPE");
        assert("TX_TYPE: "@ =~= "TX_TYPE"@ + c);
    }
    assert("FROM_USER_ID: "@ == k[2] + c) by {
        reveal_strlit("FROM_USER_ID: ");
        reveal_strlit("FROM_USER_ID");
        assert("FROM_USER_ID: "@ =~= "FROM_USER_ID"@ + c);
    }
    assert("TO_USER_ID: "@ == k[3] + c) by {
        reveal_strlit("TO_USER_ID: ");
        reveal_strlit("TO_USER_ID");
        assert("TO_USER_ID: "@ =~= "TO_USER_ID"@ + c);
    }
    assert("AMOUNT: "@ == k[4] + c) by {
        reveal_strlit("AMOUNT: ");
        reveal_strlit("AMOUNT");
        assert("AMOUNT: "@ =~= "AMOUNT"@ + c);
    }
    assert("TIMESTAMP: "@ == k[5] + c) by {
        reveal_strlit("TIMESTAMP: ");
        reveal_strlit("TIMESTAMP");
        assert("TIMESTAMP: "@ =~= "TIMESTAMP"@ + c);
    }
    assert("STATUS: "@ == k[6] + c) by {
        reveal_strlit("STATUS: ");
        reveal_strlit("STATUS");
        assert("STATUS: "@ =~= "STATUS"@ + c);
    }
    assert("DESCRIPTION: "@ == k[7] + c) by {
        reveal_strlit("DESCRIPTION: ");
        reveal_strlit("DESCRIPTION");
        assert("DESCRIPTION: "@ =~= "DESCRIPTION"@ + c);
    }
    let f = line_fields(op);
    let n = seq!['\n'];
    let l7 = kv_line("DESCRIPTION: "@, f[7]);
    let l6 = kv_line("STATUS: "@, f[6]);
    let l5 = kv_line("TIMESTAMP: "@, f[5]);
    let l4 = kv_line("AMOUNT: "@, f[4]);
    let l3 = kv_line("TO_USER_ID: "@, f[3]);
    let l2 = kv_line("FROM_USER_ID: "@, f[2]);
    let l1 = kv_line("TX_TYPE: "@, f[1]);
    let l0 = kv_line("TX_ID: "@, f[0]);
    assert(block_from(op, 8) == Seq::<char>::empty());
    assert(block_from(op, 7) =~= l7);
    assert(block_from(op, 6) == l6 + block_from(op, 7));
    assert(block_from(op, 5) == l5 + block_from(op, 6));
    assert(block_from(op, 4) == l4 + block_from(op, 5));
    assert(block_from(op, 3) == l3 + block_from(op, 4));
    assert(block_from(op, 2) == l2 + block_from(op, 3));
    assert(block_from(op, 1) == l1 + block_from(op, 2));
    assert(block_from(op, 0) == l0 + block_from(op, 1));
}

proof fn lemma_colon_skip(t: Seq<char>, i: int, k: int)
    requires
        0 <= i <= k <= t.len(),
        forall|j: int| i <= j < k ==> t[j] != ':',
    ensures
        colon_at(t, i) == colon_at(t, k),
    decreases k - i,
{
    if i < k {
        lemma_colon_skip(t, i + 1, k);
    }
}

/// What a reader makes of a `KEY: value` line.
proof fn lemma_kv_line(key: Seq<char>, v: Seq<char>)
    requires
        key.len() > 0,
        lacks(key, ':'),
        !white_space(key[0]),
        !white_space(key.last()),
        key[0] != '#',
        v.len() > 0,
        !white_space(v[0]),
        !white_space(v.last()),
    ensures
        ({
            let l = key + seq![':', ' '] + v;
            &&& trim(l) == l
            &&& l.len() > 0
            &&& l[0] != '#'
            &&& l.last() == v.last()
            &&& key_value(l) == Some((key, v))
        }),
{
    let l = key + seq![':', ' '] + v;
    let n = key.len() as int;
    assert(l[0] == key[0]);
    assert(l.last() == v.last());
    assert(trim_start(l) == l);
    assert(trim_end(l) == l);
    assert forall|j: int| 0 <= j < n implies l[j] != ':' by {
        assert(l[j] == key[j]);
    }
    lemma_colon_skip(l, 0, n);
    assert(l[n] == ':');
    assert(colon_at(l, 0) == n);
    assert(l.subrange(0, n) =~= key);
    assert(trim_start(key) == key);
    assert(trim_end(key) == key);
    let after = l.subrange(n + 1, l.len() as int);
    assert(after =~= seq![' '] + v);
    assert(after.drop_first() =~= v);
    assert(white_space(after[0]));
    assert(trim_start(after) == trim_start(v));
    assert(trim_start(v) == v);
    assert(trim_end(v) == v);
}

proof fn lemma_block_line(op: OpView, k: int)
    requires
        0 <= k < 8,
    ensures
        ({
            let l = block_line(op, k);
            &&& trim(l) == l
            &&& l.len() > 0
            &&& l[0] != '#'
            &&& l.last() != '\r'
            &&& key_value(l) == Some((keys()[k], line_fields(op)[k]))
        }),
{
    lemma_keys();
    let f = line_fields(op);
    lemma_dec_lacks(op.tx_id as int, ' ');
    lemma_dec_lacks(op.from_user_id as int, ' ');
    lemma_dec_lacks(op.to_user_id as int, ' ');
    lemma_dec_lacks(op.amount as int, ' ');
    lemma_dec_lacks(op.timestamp as int, ' ');
    lemma_type_label(op.tx_type);
    lemma_status_label(op.status);
    let q = seq!['"'] + op.description + seq!['"'];
    assert(q[0] == '"');
    assert(q.last() == '"');
    assert(f[k].len() > 0);
    assert(!white_space(f[k][0]));
    assert(!white_space(f[k].last()));
    assert(f[k].last() != '\r');
    lemma_kv_line(keys()[k], f[k]);
}

#[verifier::rlimit(100)]
#[verifier::spinoff_prover]
proof fn lemma_block_lines(op: OpView, k: int, rest: Seq<char>)
    requires
        0 <= k <= 8,
        lacks(op.description, '\n'),
    ensures
        lines(block_from(op, k) + rest) == Seq::new((8 - k) as nat, |j: int| block_line(op, k + j))
            + lines(rest),
    decreases 8 - k,
{
    if k < 8 {
        lemma_block_lines(op, k + 1, rest);
        lemma_block_line(op, k);
        lemma_keys();
        let f = line_fields(op);
        lemma_dec_lacks(op.tx_id as int, '\n');
        lemma_dec_lacks(op.from_user_id as int, '\n');
        lemma_dec_lacks(op.to_user_id as int, '\n');
        lemma_dec_lacks(op.amount as int, '\n');
        lemma_dec_lacks(op.timestamp as int, '\n');
        lemma_type_label(op.tx_type);
        lemma_status_label(op.status);
        lemma_lacks_concat(seq!['"'], op.description, '\n');
        lemma_lacks_concat(seq!['"'] + op.description, seq!['"'], '\n');
        assert(lacks(f[k], '\n'));
        lemma_lacks_concat(keys()[k], seq![':', ' '], '\n');
        lemma_lacks_concat(keys()[k] + seq![':', ' '], f[k], '\n');
        assert(block_from(op, k) + rest =~= block_line(op, k) + seq!['\n'] + (block_from(op, k + 1)
            + rest));
        lemma_lines_cons(block_line(op, k), block_from(op, k + 1) + rest);
        assert(seq![block_line(op, k)] + (Seq::new(
            (8 - k - 1) as nat,
            |j: int| block_line(op, k + 1 + j),
        ) + lines(rest)) =~= Seq::new((8 - k) as nat, |j: int| block_line(op, k + j)) + lines(
            rest,
        ));
    } else {
        assert(block_from(op, k) + rest =~= rest);
        assert(Seq::new(0, |j: int| block_line(op, k + j)) + lines(rest) =~= lines(rest));
    }
}

proof fn lemma_block_entries(op: OpView, k: int, tail: Seq<Seq<char>>)
    requires
        0 <= k <= 8,
    ensures
        blocks(
            Seq::new((8 - k) as nat, |j: int| block_line(op, k + j)) + tail,
            entries_of(op).subrange(0, k),
        ) == blocks(tail, entries_of(op)),
    decreases 8 - k,
{
    let ls = Seq::new((8 - k) as nat, |j: int| block_line(op, k + j)) + tail;
    if k < 8 {
        lemma_block_entries(op, k + 1, tail);
        lemma_block_line(op, k);
        assert(ls[0] == block_line(op, k));
        assert(ls.drop_first() =~= Seq::new((8 - k - 1) as nat, |j: int| block_line(op, k + 1 + j))
            + tail);
        assert(entries_of(op).subrange(0, k).push((keys()[k], line_fields(op)[k]))
            =~= entries_of(op).subrange(0, k + 1));
    } else {
        assert(ls =~= tail);
        assert(entries_of(op).subrange(0, 8) =~= entries_of(op));
    }
}

proof fn lemma_lookup(e: Seq<(Seq<char>, Seq<char>)>, key: Seq<char>, j: int)
    requires
        0 <= j < e.len(),
        e[j].0 == key,
        forall|i: int| j < i < e.len() ==> e[i].0 != key,
    ensures
        lookup(e, key) == Some(e[j].1),
    decreases e.len(),
{
    if j < e.len() - 1 {
        lemma_lookup(e.drop_last(), key, j);
    }
}

#[verifier::rlimit(100)]
#[verifier::spinoff_prover]
proof fn lemma_entries_record(op: OpView)
    requires
        block_description(op.description),
    ensures
        record_spec(entries_of(op)) == Ok::<OpView, ErrorKind>(op),
{
    let e = entries_of(op);
    let f = line_fields(op);
    lemma_keys();
    assert forall|j: int| 0 <= j < 8 implies lookup(e, #[trigger] keys()[j]) == Some(f[j]) by {
        lemma_lookup(e, keys()[j], j);
    }
    assert(lookup(e, "TX_ID"@) == Some(f[0]));
    assert(lookup(e, "TX_TYPE"@) == Some(f[1]));
    assert(lookup(e, "FROM_USER_ID"@) == Some(f[2]));
    assert(lookup(e, "TO_USER_ID"@) == Some(f[3]));
    assert(lookup(e, "AMOUNT"@) == Some(f[4]));
    assert(lookup(e, "TIMESTAMP"@) == Some(f[5]));
    assert(lookup(e, "STATUS"@) == Some(f[6]));
    assert(lookup(e, "DESCRIPTION"@) == Some(f[7]));
    lemma_type_label(op.tx_type);
    lemma_status_label(op.status);
    lemma_parse_dec_u64(op.tx_id);
    lemma_parse_dec_u64(op.from_user_id);
    lemma_parse_dec_u64(op.to_user_id);
    lemma_parse_dec_i64(op.amount);
    lemma_parse_dec_u64(op.timestamp);
    lemma_unquote(op.description);
}

/// What a reader makes of a block followed by the text `rest`.
proof fn lemma_block_then(op: OpView, rest: Seq<char>)
    requires
        block_description(op.description),
    ensures
        blocks(lines(block_spec(op) + rest), seq![]) == blocks(lines(rest), entries_of(op)),
{
    lemma_block_shape(op);
    lemma_block_lines(op, 0, rest);
    lemma_block_entries(op, 0, lines(rest));
    assert(entries_of(op).subrange(0, 0) =~= Seq::<(Seq<char>, Seq<char>)>::empty());
}

/// Whether a description survives a block: it holds no line feed.
pub open spec fn block_description(d: Seq<char>) -> bool {
    lacks(d, '\n')
}

/// Round trip of the text codec: the block written for one valid record whose description
/// holds no line feed reads back as exactly that record.
#[verifier::rlimit(100)]
#[verifier::spinoff_prover]
pub proof fn lemma_text_round_trip(op: OpView)
    requires
        op.valid(),
        block_description(op.description),
    ensures
        write_spec(seq![op]) == Ok::<Seq<char>, ErrorKind>(block_spec(op)),
        parse_spec(block_spec(op)) == Ok::<Seq<OpView>, ErrorKind>(seq![op]),
{
    assert(seq![op][0] == op);
    assert(op.check() is None);
    assert(seq![op].drop_first() =~= Seq::<OpView>::empty());
    assert(write_blocks(Seq::<OpView>::empty(), false) == Ok::<Seq<char>, ErrorKind>(
        Seq::<char>::empty(),
    ));
    assert(Seq::<char>::empty() + block_spec(op) + Seq::<char>::empty() =~= block_spec(op));
    lemma_block_then(op, Seq::<char>::empty());
    assert(block_spec(op) + Seq::<char>::empty() =~= block_spec(op));
    assert(lines(Seq::<char>::empty()) =~= Seq::<Seq<char>>::empty());
    lemma_entries_record(op);
    assert(seq![op] + Seq::<OpView>::empty() =~= seq![op]);
}

#[verifier::rlimit(100)]
#[verifier::spinoff_prover]
proof fn lemma_text_body(ops: Seq<OpView>)
    requires
        forall|i: int|
            0 <= i < ops.len() ==> (#[trigger] ops[i]).valid() && block_description(
                ops[i].description,
            ),
    ensures
        write_blocks(ops, true) is Ok,
        write_blocks(ops, false) is Ok,
        write_blocks(ops, false)->Ok_0 == if ops.len() == 0 {
            Seq::<char>::empty()
        } else {
            seq!['\n'] + write_blocks(ops, true)->Ok_0
        },
        blocks(lines(write_blocks(ops, true)->Ok_0), seq![]) == Ok::<Seq<OpView>, ErrorKind>(ops),
    decreases ops.len(),
{
    if ops.len() == 0 {
        assert(lines(Seq::<char>::empty()) =~= Seq::<Seq<char>>::empty());
        assert(ops =~= seq![]);
    } else {
        let rest = ops.drop_first();
        assert forall|i: int| 0 <= i < rest.len() implies (#[trigger] rest[i]).valid()
            && block_description(rest[i].description) by {
            assert(rest[i] == ops[i + 1]);
        }
        lemma_text_body(rest);
        let op = ops[0];
        assert(op.valid() && block_description(op.description));
        let r = write_blocks(rest, false)->Ok_0;
        assert(Seq::<char>::empty() + block_spec(op) + r =~= block_spec(op) + r);
        assert(seq!['\n'] + block_spec(op) + r =~= seq!['\n'] + (block_spec(op) + r));
        lemma_block_then(op, r);
        lemma_entries_record(op);
        if rest.len() == 0 {
            assert(lines(r) =~= Seq::<Seq<char>>::empty());
        } else {
            let t = write_blocks(rest, true)->Ok_0;
            assert(r == seq!['\n'] + t);
            assert(Seq::<char>::empty() + seq!['\n'] + t =~= r);
            lemma_lines_cons(Seq::<char>::empty(), t);
            let ls = seq![Seq::<char>::empty()] + lines(t);
            assert(ls[0] =~= Seq::<char>::empty());
            assert(ls.drop_first() =~= lines(t));
            assert(trim(Seq::<char>::empty()) == Seq::<char>::empty());
        }
        assert(seq![op] + rest =~= ops);
    }
}

/// Round trip of the text codec for a whole set: writing records with distinct identifiers,
/// each valid and with a description that survives a block, and reading the text back gives
/// the same records in the same order, and the same set.
pub proof fn lemma_text_set_round_trip(ops: Seq<OpView>)
    requires
        unique_ids(ops),
        forall|i: int|
            0 <= i < ops.len() ==> (#[trigger] ops[i]).valid() && block_description(
                ops[i].description,
            ),
    ensures
        write_spec(ops) is Ok,
        parse_spec(write_spec(ops)->Ok_0) == Ok::<Seq<OpView>, ErrorKind>(ops),
        collect(ops) == ops,
{
    lemma_collect_unique(ops);
    lemma_text_body(ops);
}

} // verus!
