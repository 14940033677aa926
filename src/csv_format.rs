use crate::chars::{
    append_i64, append_string, append_u64, copy_range, dec_int, dec_nat, eq_label, int_message,
    int_reason, is_digit, lacks, lemma_dec_lacks, lemma_lacks_concat, lemma_lines_cons,
    lemma_parse_dec_i64, lemma_parse_dec_u64, lemma_two_lines, lemma_unquote, lines, lines_scan,
    next_line, parse_i64, parse_i64_spec, parse_u64, parse_u64_spec, push_char, reported_failure,
    str_chars, strip_quote_pair, trim, trim_end, trim_range, trim_start, unquoted_string,
    white_space,
};
use crate::collection::{collect, lemma_collect_unique, unique_ids, OperationSet};
use crate::error::{ErrorKind, ParseError};
use crate::operation::{
    lemma_status_label, lemma_type_label, OpView, Operation, OperationStatus, OperationType,
};
use vstd::prelude::*;
use vstd::string::*;

verus! {

/// The header line of a CSV table.
pub open spec fn header() -> Seq<char> {
    "TX_ID,TX_TYPE,FROM_USER_ID,TO_USER_ID,AMOUNT,TIMESTAMP,STATUS,DESCRIPTION"@
}

/// The fields of `line` from position `i` on, where the current field began at `start` and
/// `in_quotes` tells whether an odd number of double quotes came before: a comma outside
/// quotes ends a field.
pub open spec fn split_scan(line: Seq<char>, i: int, start: int, in_quotes: bool) -> Seq<
    Seq<char>,
>
    decreases line.len() - i,
{
    if i >= line.len() {
        seq![line.subrange(start, line.len() as int)]
    } else if line[i] == '"' {
        split_scan(line, i + 1, start, !in_quotes)
    } else if line[i] == ',' && !in_quotes {
        seq![line.subrange(start, i)] + split_scan(line, i + 1, i + 1, in_quotes)
    } else {
        split_scan(line, i + 1, start, in_quotes)
    }
}

/// The fields of a CSV line.
pub open spec fn fields(line: Seq<char>) -> Seq<Seq<char>> {
    split_scan(line, 0, 0, false)
}

/// What a CSV line yields: its record, or the first problem in the order of the fields. A
/// line without eight fields is a format error that gives the count; a field that does not convert is a field
/// error naming it. The description loses one pair of surrounding quotes.
pub open spec fn line_result(line: Seq<char>) -> Result<OpView, ErrorKind> {
    let f = fields(line);
    if f.len() != 8 {
        Err(ErrorKind::Format("Expected 8 fields, got "@ + dec_nat(f.len())))
    } else if parse_u64_spec(f[0]) is None {
        Err(ErrorKind::Field("TX_ID"@))
    } else if OperationType::from_label(f[1]) is None {
        Err(ErrorKind::Field("TX_TYPE"@))
    } else if parse_u64_spec(f[2]) is None {
        Err(ErrorKind::Field("FROM_USER_ID"@))
    } else if parse_u64_spec(f[3]) is None {
        Err(ErrorKind::Field("TO_USER_ID"@))
    } else if parse_i64_spec(f[4]) is None {
        Err(ErrorKind::Field("AMOUNT"@))
    } else if parse_u64_spec(f[5]) is None {
        Err(ErrorKind::Field("TIMESTAMP"@))
    } else if OperationStatus::from_label(f[6]) is None {
        Err(ErrorKind::Field("STATUS"@))
    } else {
        Ok(
            OpView {
                tx_id: parse_u64_spec(f[0])->0,
                tx_type: OperationType::from_label(f[1])->0,
                from_user_id: parse_u64_spec(f[2])->0,
                to_user_id: parse_u64_spec(f[3])->0,
                amount: parse_i64_spec(f[4])->0,
                timestamp: parse_u64_spec(f[5])->0,
                status: OperationStatus::from_label(f[6])->0,
                description: strip_quote_pair(f[7]),
            },
        )
    }
}

/// The records of the lines after the header; blank lines are skipped.
pub open spec fn rows(ls: Seq<Seq<char>>) -> Result<Seq<OpView>, ErrorKind>
    decreases ls.len(),
{
    if ls.len() == 0 {
        Ok(seq![])
    } else if trim(ls[0]).len() == 0 {
        rows(ls.drop_first())
    } else {
        match line_result(ls[0]) {
            Err(e) => Err(e),
            Ok(op) => match op.check() {
                Some(e) => Err(e),
                None => match rows(ls.drop_first()) {
                    Ok(rest) => Ok(seq![op] + rest),
                    Err(e) => Err(e),
                },
            },
        }
    }
}

/// The records of a CSV table, or what is wrong with it.
pub open spec fn parse_spec(s: Seq<char>) -> Result<Seq<OpView>, ErrorKind> {
    let ls = lines(s);
    if ls.len() == 0 {
        Err(ErrorKind::Format("Missing CSV header"@))
    } else if ls[0] != header() {
        Err(ErrorKind::Format("Invalid CSV header"@))
    } else {
        rows(ls.drop_first())
    }
}

/// The line that holds `op`; the description is quoted as it is.
pub open spec fn line_spec(op: OpView) -> Seq<char> {
    dec_nat(op.tx_id as nat) + seq![','] + op.tx_type.label() + seq![','] + dec_nat(
        op.from_user_id as nat,
    ) + seq![','] + dec_nat(op.to_user_id as nat) + seq![','] + dec_int(op.amount as int)
        + seq![','] + dec_nat(op.timestamp as nat) + seq![','] + op.status.label() + seq![
        ',',
        '"',
    ] + op.description + seq!['"']
}

/// The lines of `ops`, each ended by a newline, or the first record that fails its check.
pub open spec fn write_rows(ops: Seq<OpView>) -> Result<Seq<char>, ErrorKind>
    decreases ops.len(),
{
    if ops.len() == 0 {
        Ok(seq![])
    } else {
        match ops[0].check() {
            Some(e) => Err(e),
            None => match write_rows(ops.drop_first()) {
                Ok(rest) => Ok(line_spec(ops[0]) + seq!['\n'] + rest),
                Err(e) => Err(e),
            },
        }
    }
}

/// A CSV table of `ops`: the header, then one line per record.
pub open spec fn write_spec(ops: Seq<OpView>) -> Result<Seq<char>, ErrorKind> {
    match write_rows(ops) {
        Ok(body) => Ok(header() + seq!['\n'] + body),
        Err(e) => Err(e),
    }
}

/// The pieces of `line` between the given bounds.
pub open spec fn texts(line: Seq<char>, bounds: Seq<(usize, usize)>) -> Seq<Seq<char>> {
    bounds.map_values(|b: (usize, usize)| line.subrange(b.0 as int, b.1 as int))
}

/// The bounds of the fields of `line`.
fn split_csv_line(line: &[char]) -> (r: Vec<(usize, usize)>)
    ensures
        r@.len() == fields(line@).len(),
        forall|k: int|
            0 <= k < r@.len() ==> r@[k].0 <= r@[k].1 <= line@.len() && line@.subrange(
                r@[k].0 as int,
                r@[k].1 as int,
            ) == fields(line@)[k],
{
    let mut parts: Vec<(usize, usize)> = Vec::new();
    let mut start: usize = 0;
    let mut in_quotes = false;
    let mut i: usize = 0;
    while i < line.len()
        invariant
            start <= i <= line@.len(),
            forall|k: int|
                0 <= k < parts@.len() ==> #[trigger] parts@[k].0 <= parts@[k].1 <= line@.len(),
            fields(line@) == texts(line@, parts@) + split_scan(
                line@,
                i as int,
                start as int,
                in_quotes,
            ),
        decreases line@.len() - i,
    {
        let ghost before = parts@;
        let c = line[i];
        if c == '"' {
            in_quotes = !in_quotes;
        } else if c == ',' && !in_quotes {
            parts.push((start, i));
            proof {
                assert(texts(line@, parts@) =~= texts(line@, before).push(
                    line@.subrange(start as int, i as int),
                ));
                assert(texts(line@, before) + split_scan(line@, i as int, start as int, in_quotes)
                    =~= texts(line@, parts@) + split_scan(
                    line@,
                    i + 1,
                    i + 1,
                    in_quotes,
                ));
            }
            start = i + 1;
        }
        i += 1;
    }
    let ghost before = parts@;
    parts.push((start, line.len()));
    proof {
        assert(texts(line@, parts@) =~= texts(line@, before) + split_scan(
            line@,
            i as int,
            start as int,
            in_quotes,
        ));
    }
    assert forall|k: int| 0 <= k < parts@.len() implies line@.subrange(
        parts@[k].0 as int,
        parts@[k].1 as int,
    ) == fields(line@)[k] by {
        assert(texts(line@, parts@)[k] == line@.subrange(parts@[k].0 as int, parts@[k].1 as int));
    }
    parts
}

fn field_error(field: &str, line: &[char], lo: usize, hi: usize, signed: bool) -> (r: ParseError)
    requires
        lo <= hi <= line@.len(),
    ensures
        r@ == ErrorKind::Field(field@),
        r matches ParseError::InvalidField { reason, .. } && reason@ == int_message(
            reported_failure(line@.subrange(lo as int, hi as int), signed),
        ),
{
    ParseError::field(field, int_reason(line, lo, hi, signed))
}

/// The reason given for the first field of a CSV line that does not convert.
pub open spec fn line_reason(line: Seq<char>) -> Seq<char> {
    let f = fields(line);
    if parse_u64_spec(f[0]) is None {
        int_message(reported_failure(f[0], false))
    } else if OperationType::from_label(f[1]) is None {
        "Unknown transaction type: "@ + f[1]
    } else if parse_u64_spec(f[2]) is None {
        int_message(reported_failure(f[2], false))
    } else if parse_u64_spec(f[3]) is None {
        int_message(reported_failure(f[3], false))
    } else if parse_i64_spec(f[4]) is None {
        int_message(reported_failure(f[4], true))
    } else if parse_u64_spec(f[5]) is None {
        int_message(reported_failure(f[5], false))
    } else {
        "Unknown status: "@ + f[6]
    }
}

/// Reads the record of one CSV line.
fn parse_line(line: &[char]) -> (r: Result<Operation, ParseError>)
    ensures
        match line_result(line@) {
            Ok(op) => r matches Ok(o) && o@ == op,
            Err(e) => r matches Err(x) && x@ == e,
        },
        line_result(line@) matches Err(ErrorKind::Field(_)) ==> (r matches Err(
            ParseError::InvalidField { reason, .. },
        ) && reason@ == line_reason(line@)),
{
    let parts = split_csv_line(line);
    let ghost f = fields(line@);
    if parts.len() != 8 {
        let mut detail = String::from_str("Expected 8 fields, got ");
        append_u64(&mut detail, parts.len() as u64);
        return Err(ParseError::InvalidFormat(detail));
    }
    let tx_id = match parse_u64(line, parts[0].0, parts[0].1) {
        Some(v) => v,
        None => {
            return Err(field_error("TX_ID", line, parts[0].0, parts[0].1, false));
        },
    };
    let tx_type = match OperationType::from_chars(line, parts[1].0, parts[1].1) {
        Ok(t) => t,
        Err(e) => {
            return Err(e);
        },
    };
    let from_user_id = match parse_u64(line, parts[2].0, parts[2].1) {
        Some(v) => v,
        None => {
            return Err(field_error("FROM_USER_ID", line, parts[2].0, parts[2].1, false));
        },
    };
    let to_user_id = match parse_u64(line, parts[3].0, parts[3].1) {
        Some(v) => v,
        None => {
            return Err(field_error("TO_USER_ID", line, parts[3].0, parts[3].1, false));
        },
    };
    let amount = match parse_i64(line, parts[4].0, parts[4].1) {
        Some(v) => v,
        None => {
            return Err(field_error("AMOUNT", line, parts[4].0, parts[4].1, true));
        },
    };
    let timestamp = match parse_u64(line, parts[5].0, parts[5].1) {
        Some(v) => v,
        None => {
            return Err(field_error("TIMESTAMP", line, parts[5].0, parts[5].1, false));
        },
    };
    let status = match OperationStatus::from_chars(line, parts[6].0, parts[6].1) {
        Ok(s) => s,
        Err(e) => {
            return Err(e);
        },
    };
    let description = unquoted_string(line, parts[7].0, parts[7].1);
    Ok(
        Operation {
            tx_id,
            tx_type,
            from_user_id,
            to_user_id,
            amount,
            timestamp,
            status,
            description,
        },
    )
}

/// Reads a CSV table: the header line, then one record per non-blank line. Records that
/// share a `tx_id` collapse into the later one.
pub fn parse_all(input: &str) -> (r: Result<OperationSet, ParseError>)
    ensures
        match parse_spec(input@) {
            Ok(ops) => r matches Ok(s) && s@ == collect(ops) && s.wf(),
            Err(e) => r matches Err(x) && x@ == e,
        },
{
    let cs = str_chars(input);
    let ghost s = cs@;
    if cs.len() == 0 {
        assert(lines(s) =~= seq![]);
        return Err(ParseError::format("Missing CSV header"));
    }
    let (end, next) = next_line(cs.as_slice(), 0);
    if !eq_label(cs.as_slice(), 0, end, "TX_ID,TX_TYPE,FROM_USER_ID,TO_USER_ID,AMOUNT,TIMESTAMP,STATUS,DESCRIPTION") {
        return Err(ParseError::format("Invalid CSV header"));
    }
    assert(lines(s).drop_first() =~= lines_scan(s, next as int, next as int));
    let mut set = OperationSet::new();
    let mut pos = next;
    let ghost mut done: Seq<OpView> = seq![];
    while pos < cs.len()
        invariant
            pos <= cs@.len(),
            s == cs@,
            s == input@,
            set.wf(),
            set@ == collect(done),
            parse_spec(s) == match rows(lines_scan(s, pos as int, pos as int)) {
                Ok(rest) => Ok(done + rest),
                Err(e) => Err(e),
            },
        decreases cs@.len() - pos,
    {
        let (end, next) = next_line(cs.as_slice(), pos);
        let ghost line = cs@.subrange(pos as int, end as int);
        let ghost tail = lines_scan(s, next as int, next as int);
        assert(lines_scan(s, pos as int, pos as int).drop_first() =~= tail);
        assert(lines_scan(s, pos as int, pos as int)[0] == line);
        let (a, b) = trim_range(cs.as_slice(), pos, end);
        if a < b {
            assert(trim(line).len() > 0);
            let text = copy_range(cs.as_slice(), pos, end);
            let op = match parse_line(text.as_slice()) {
                Ok(op) => op,
                Err(e) => {
                    assert(rows(lines_scan(s, pos as int, pos as int)) == Err::<Seq<OpView>, ErrorKind>(
                        line_result(line)->Err_0,
                    ));
                    return Err(e);
                },
            };
            match op.validate() {
                Ok(()) => {},
                Err(e) => {
                    return Err(e);
                },
            }
            proof {
                if let Ok(t) = rows(tail) {
                    assert(done + (seq![op@] + t) =~= done.push(op@) + t);
                }
                assert(done.push(op@).drop_last() =~= done);
                done = done.push(op@);
            }
            set.insert(op);
        }
        pos = next;
    }
    assert(lines_scan(s, pos as int, pos as int) =~= seq![]);
    assert(done + seq![] =~= done);
    Ok(set)
}

/// Appends the line that holds `op`, without its newline.
fn write_line(out: &mut String, op: &Operation)
    ensures
        final(out)@ == old(out)@ + line_spec(op@),
{
    let ghost start = out@;
    append_u64(out, op.tx_id);
    push_char(out, ',');
    out.append(op.tx_type.as_str());
    push_char(out, ',');
    append_u64(out, op.from_user_id);
    push_char(out, ',');
    append_u64(out, op.to_user_id);
    push_char(out, ',');
    append_i64(out, op.amount);
    push_char(out, ',');
    append_u64(out, op.timestamp);
    push_char(out, ',');
    out.append(op.status.as_str());
    push_char(out, ',');
    push_char(out, '"');
    append_string(out, &op.description);
    push_char(out, '"');
    assert(out@ =~= start + line_spec(op@));
}

/// Writes `operations` as a CSV table to `out`, in the set's order. Nothing is written if
/// any record fails its check.
pub fn write_all(out: &mut String, operations: &OperationSet) -> (r: Result<(), ParseError>)
    ensures
        match write_spec(operations@) {
            Ok(t) => r is Ok && final(out)@ == old(out)@ + t,
            Err(e) => r matches Err(x) && x@ == e && final(out)@ == old(out)@,
        },
{
    let mut body = String::new();
    let mut i: usize = 0;
    assert(operations@.subrange(0, operations@.len() as int) =~= operations@);
    assert(seq![] + seq![] =~= Seq::<char>::empty());
    while i < operations.len()
        invariant
            i <= operations@.len(),
            write_rows(operations@) == match write_rows(
                operations@.subrange(i as int, operations@.len() as int),
            ) {
                Ok(rest) => Ok(body@ + rest),
                Err(e) => Err(e),
            },
        decreases operations@.len() - i,
    {
        let ghost rest = operations@.subrange(i as int, operations@.len() as int);
        let ghost before = body@;
        let op = operations.get(i);
        assert(rest[0] == op@);
        match op.validate() {
            Ok(()) => {},
            Err(e) => {
                return Err(e);
            },
        }
        write_line(&mut body, op);
        push_char(&mut body, '\n');
        proof {
            assert(rest.drop_first() =~= operations@.subrange(i + 1, operations@.len() as int));
            if let Ok(t) = write_rows(rest.drop_first()) {
                assert(before + (line_spec(op@) + seq!['\n'] + t) =~= body@ + t);
            }
        }
        i += 1;
    }
    assert(operations@.subrange(i as int, operations@.len() as int) =~= seq![]);
    assert(body@ + seq![] =~= body@);
    let ghost start = out@;
    out.append("TX_ID,TX_TYPE,FROM_USER_ID,TO_USER_ID,AMOUNT,TIMESTAMP,STATUS,DESCRIPTION");
    push_char(out, '\n');
    append_string(out, &body);
    assert(out@ =~= start + (header() + seq!['\n'] + body@));
    Ok(())
}

proof fn lemma_split_shift(x: Seq<char>, y: Seq<char>, i: int, st: int, q: bool)
    requires
        0 <= st <= i <= y.len(),
    ensures
        split_scan(x + y, x.len() + i, x.len() + st, q) == split_scan(y, i, st, q),
    decreases y.len() - i,
{
    let s = x + y;
    let n = x.len() as int;
    if i < y.len() {
        assert(s[n + i] == y[i]);
        assert(s.subrange(n + st, n + i) =~= y.subrange(st, i));
        if y[i] == '"' {
            lemma_split_shift(x, y, i + 1, st, !q);
        } else if y[i] == ',' && !q {
            lemma_split_shift(x, y, i + 1, i + 1, q);
        } else {
            lemma_split_shift(x, y, i + 1, st, q);
        }
    } else {
        assert(s.subrange(n + st, s.len() as int) =~= y.subrange(st, y.len() as int));
    }
}

proof fn lemma_split_skip(s: Seq<char>, i: int, k: int, st: int, q: bool)
    requires
        0 <= i <= k <= s.len(),
        forall|j: int| i <= j < k ==> s[j] != '"' && (!q ==> s[j] != ','),
    ensures
        split_scan(s, i, st, q) == split_scan(s, k, st, q),
    decreases k - i,
{
    if i < k {
        lemma_split_skip(s, i + 1, k, st, q);
    }
}

/// A field without commas or quotes, then a comma, starts the fields of a line.
proof fn lemma_split_field(a: Seq<char>, rest: Seq<char>)
    requires
        lacks(a, ','),
        lacks(a, '"'),
    ensures
        fields(a + seq![','] + rest) == seq![a] + fields(rest),
{
    let x = a + seq![','];
    let s = x + rest;
    let n = a.len() as int;
    assert forall|j: int| 0 <= j < n implies s[j] != '"' && s[j] != ',' by {
        assert(s[j] == a[j]);
    }
    lemma_split_skip(s, 0, n, 0, false);
    assert(s[n] == ',');
    assert(s.subrange(0, n) =~= a);
    lemma_split_shift(x, rest, 0, 0, false);
}

/// The number of double quotes in `d[..j]`.
pub open spec fn quotes_before(d: Seq<char>, j: int) -> nat
    decreases j,
{
    if j <= 0 {
        0
    } else {
        quotes_before(d, j - 1) + if d[j - 1] == '"' {
            1nat
        } else {
            0nat
        }
    }
}

/// Whether every comma of `d` stays inside quotes once `d` is wrapped in a pair of them: an
/// even number of double quotes comes before it.
pub open spec fn commas_quoted(d: Seq<char>) -> bool {
    forall|j: int| 0 <= j < d.len() && d[j] == ',' ==> #[trigger] quotes_before(d, j) % 2 == 0
}

proof fn lemma_split_quoted_scan(d: Seq<char>, j: int)
    requires
        0 <= j <= d.len(),
        commas_quoted(d),
    ensures
        split_scan(seq!['"'] + d + seq!['"'], 1, 0, true) == split_scan(
            seq!['"'] + d + seq!['"'],
            1 + j,
            0,
            quotes_before(d, j) % 2 == 0,
        ),
    decreases j,
{
    if j > 0 {
        lemma_split_quoted_scan(d, j - 1);
        let s = seq!['"'] + d + seq!['"'];
        assert(s[j] == d[j - 1]);
    }
}

/// A quoted field whose commas all stay inside quotes is one field.
proof fn lemma_split_quoted(d: Seq<char>)
    requires
        commas_quoted(d),
    ensures
        fields(seq!['"'] + d + seq!['"']) == seq![seq!['"'] + d + seq!['"']],
{
    let s = seq!['"'] + d + seq!['"'];
    let n = d.len() as int;
    assert(s[0] == '"');
    assert(split_scan(s, 0, 0, false) == split_scan(s, 1, 0, true));
    lemma_split_quoted_scan(d, n);
    assert(s[n + 1] == '"');
    let q = quotes_before(d, n) % 2 == 0;
    assert(split_scan(s, n + 1, 0, q) == split_scan(s, n + 2, 0, !q));
    assert(s.subrange(0, s.len() as int) =~= s);
}

/// Whether a description survives a CSV line: no line feed, and every comma inside quotes.
pub open spec fn csv_description(d: Seq<char>) -> bool {
    &&& lacks(d, '\n')
    &&& commas_quoted(d)
}

/// The pieces of the line that holds `op`, in order.
pub open spec fn line_fields(op: OpView) -> Seq<Seq<char>> {
    seq![
        dec_nat(op.tx_id as nat),
        op.tx_type.label(),
        dec_nat(op.from_user_id as nat),
        dec_nat(op.to_user_id as nat),
        dec_int(op.amount as int),
        dec_nat(op.timestamp as nat),
        op.status.label(),
        seq!['"'] + op.description + seq!['"'],
    ]
}

proof fn lemma_pieces_lack(op: OpView, c: char)
    requires
        !is_digit(c),
        c != '-',
        !(65 <= c as u32 <= 90),
    ensures
        forall|k: int| 0 <= k < 7 ==> lacks(#[trigger] line_fields(op)[k], c),
{
    lemma_dec_lacks(op.tx_id as int, c);
    lemma_dec_lacks(op.from_user_id as int, c);
    lemma_dec_lacks(op.to_user_id as int, c);
    lemma_dec_lacks(op.amount as int, c);
    lemma_dec_lacks(op.timestamp as int, c);
    lemma_type_label(op.tx_type);
    lemma_status_label(op.status);
    let f = line_fields(op);
    assert(lacks(f[1], c));
    assert(lacks(f[6], c));
}

/// The line written for `op`, grouped from the right: each field, a comma, the rest.
pub open spec fn nest(f: Seq<Seq<char>>, k: int) -> Seq<char>
    decreases 7 - k,
{
    if k >= 7 {
        f[7]
    } else {
        f[k] + seq![','] + nest(f, k + 1)
    }
}

#[verifier::rlimit(100)]
#[verifier::spinoff_prover]
proof fn lemma_line_shape(op: OpView)
    ensures
        line_spec(op) == nest(line_fields(op), 0),
{
    let f = line_fields(op);
    let c = seq![','];
    assert(nest(f, 7) == f[7]);
    assert(nest(f, 6) == f[6] + c + f[7]);
    assert(nest(f, 5) == f[5] + c + nest(f, 6));
    assert(nest(f, 4) == f[4] + c + nest(f, 5));
    assert(nest(f, 3) == f[3] + c + nest(f, 4));
    assert(nest(f, 2) == f[2] + c + nest(f, 3));
    assert(nest(f, 1) == f[1] + c + nest(f, 2));
    assert(nest(f, 0) == f[0] + c + nest(f, 1));
    assert(line_spec(op) =~= nest(f, 0));
}

proof fn lemma_nest_fields(f: Seq<Seq<char>>, k: int)
    requires
        f.len() == 8,
        0 <= k <= 7,
        forall|j: int| 0 <= j < 7 ==> lacks(#[trigger] f[j], ',') && lacks(f[j], '"'),
        commas_quoted(f[7].subrange(1, f[7].len() - 1)),
        f[7].len() >= 2,
        f[7] == seq!['"'] + f[7].subrange(1, f[7].len() - 1) + seq!['"'],
    ensures
        fields(nest(f, k)) == f.subrange(k, 8),
    decreases 7 - k,
{
    if k < 7 {
        lemma_nest_fields(f, k + 1);
        lemma_split_field(f[k], nest(f, k + 1));
        assert(seq![f[k]] + f.subrange(k + 1, 8) =~= f.subrange(k, 8));
    } else {
        lemma_split_quoted(f[7].subrange(1, f[7].len() - 1));
        assert(f.subrange(7, 8) =~= seq![f[7]]);
    }
}

proof fn lemma_nest_lacks(f: Seq<Seq<char>>, k: int, c: char)
    requires
        f.len() == 8,
        0 <= k <= 7,
        c != ',',
        forall|j: int| 0 <= j < 8 ==> lacks(#[trigger] f[j], c),
    ensures
        lacks(nest(f, k), c),
    decreases 7 - k,
{
    if k < 7 {
        lemma_nest_lacks(f, k + 1, c);
        lemma_lacks_concat(f[k], seq![','], c);
        lemma_lacks_concat(f[k] + seq![','], nest(f, k + 1), c);
    }
}

#[verifier::rlimit(100)]
#[verifier::spinoff_prover]
proof fn lemma_line_fields(op: OpView)
    requires
        csv_description(op.description),
    ensures
        fields(line_spec(op)) == line_fields(op),
        lacks(line_spec(op), '\n'),
{
    let f = line_fields(op);
    lemma_pieces_lack(op, ',');
    lemma_pieces_lack(op, '"');
    lemma_pieces_lack(op, '\n');
    lemma_line_shape(op);
    assert(f[7].subrange(1, f[7].len() - 1) =~= op.description);
    lemma_nest_fields(f, 0);
    assert(f.subrange(0, 8) =~= f);
    lemma_lacks_concat(seq!['"'], op.description, '\n');
    lemma_lacks_concat(seq!['"'] + op.description, seq!['"'], '\n');
    lemma_nest_lacks(f, 0, '\n');
}

proof fn lemma_line_record(op: OpView)
    requires
        csv_description(op.description),
    ensures
        line_result(line_spec(op)) == Ok::<OpView, ErrorKind>(op),
{
    lemma_line_fields(op);
    lemma_type_label(op.tx_type);
    lemma_status_label(op.status);
    lemma_parse_dec_u64(op.tx_id);
    lemma_parse_dec_u64(op.from_user_id);
    lemma_parse_dec_u64(op.to_user_id);
    lemma_parse_dec_i64(op.amount);
    lemma_parse_dec_u64(op.timestamp);
    lemma_unquote(op.description);
}

/// Round trip of the CSV codec: the table written from one valid record whose description
/// survives a line reads back as exactly that record.
#[verifier::rlimit(100)]
#[verifier::spinoff_prover]
pub proof fn lemma_csv_round_trip(op: OpView)
    requires
        op.valid(),
        csv_description(op.description),
    ensures
        write_spec(seq![op]) == Ok::<Seq<char>, ErrorKind>(
            header() + seq!['\n'] + line_spec(op) + seq!['\n'],
        ),
        parse_spec(header() + seq!['\n'] + line_spec(op) + seq!['\n']) == Ok::<
            Seq<OpView>,
            ErrorKind,
        >(seq![op]),
{
    let line = line_spec(op);
    assert(seq![op][0] == op);
    assert(op.check() is None);
    assert(seq![op].drop_first() =~= Seq::<OpView>::empty());
    assert(write_rows(Seq::<OpView>::empty()) == Ok::<Seq<char>, ErrorKind>(Seq::<char>::empty()));
    assert(line + seq!['\n'] + Seq::<char>::empty() =~= line + seq!['\n']);
    assert(header() + seq!['\n'] + (line + seq!['\n']) =~= header() + seq!['\n'] + line + seq![
        '\n',
    ]);
    lemma_line_fields(op);
    lemma_line_record(op);
    reveal_strlit("TX_ID,TX_TYPE,FROM_USER_ID,TO_USER_ID,AMOUNT,TIMESTAMP,STATUS,DESCRIPTION");
    assert(header().len() == 73);
    assert(header().last() == 'N');
    assert(line.last() == '"');
    lemma_two_lines(header(), line);
    let t = header() + seq!['\n'] + line + seq!['\n'];
    assert(lines(t).drop_first() =~= seq![line]);
    lemma_dec_lacks(op.tx_id as int, ' ');
    assert(line[0] == dec_nat(op.tx_id as nat)[0]);
    assert(!white_space(line[0]));
    assert(trim_start(line) == line);
    assert(!white_space(line.last()));
    assert(trim_end(line) == line);
    assert(trim(line) == line);
    assert(lines(t) == seq![header(), line]);
    assert(lines(t)[0] == header());
    assert(seq![line].drop_first() =~= Seq::<Seq<char>>::empty());
    assert(rows(Seq::<Seq<char>>::empty()) == Ok::<Seq<OpView>, ErrorKind>(Seq::<OpView>::empty()));
    assert(rows(seq![line]) == Ok::<Seq<OpView>, ErrorKind>(seq![op] + Seq::<OpView>::empty()));
    assert(seq![op] + Seq::<OpView>::empty() =~= seq![op]);
}

#[verifier::rlimit(100)]
#[verifier::spinoff_prover]
proof fn lemma_line_not_blank(op: OpView)
    requires
        csv_description(op.description),
    ensures
        trim(line_spec(op)) == line_spec(op),
        line_spec(op).len() > 0,
        line_spec(op).last() == '"',
        lacks(line_spec(op), '\n'),
        line_result(line_spec(op)) == Ok::<OpView, ErrorKind>(op),
{
    let line = line_spec(op);
    lemma_line_fields(op);
    lemma_line_record(op);
    lemma_dec_lacks(op.tx_id as int, ' ');
    assert(line[0] == dec_nat(op.tx_id as nat)[0]);
    assert(!white_space(line[0]));
    assert(trim_start(line) == line);
    assert(line.last() == '"');
    assert(!white_space(line.last()));
    assert(trim_end(line) == line);
}

#[verifier::rlimit(100)]
#[verifier::spinoff_prover]
proof fn lemma_csv_body(ops: Seq<OpView>)
    requires
        forall|i: int|
            0 <= i < ops.len() ==> (#[trigger] ops[i]).valid() && csv_description(
                ops[i].description,
            ),
    ensures
        write_rows(ops) is Ok,
        rows(lines(write_rows(ops)->Ok_0)) == Ok::<Seq<OpView>, ErrorKind>(ops),
    decreases ops.len(),
{
    if ops.len() == 0 {
        assert(lines(Seq::<char>::empty()) =~= Seq::<Seq<char>>::empty());
        assert(ops =~= seq![]);
    } else {
        let rest = ops.drop_first();
        assert forall|i: int| 0 <= i < rest.len() implies (#[trigger] rest[i]).valid()
            && csv_description(rest[i].description) by {
            assert(rest[i] == ops[i + 1]);
        }
        lemma_csv_body(rest);
        let op = ops[0];
        assert(op.valid() && csv_description(op.description));
        let line = line_spec(op);
        let body = write_rows(rest)->Ok_0;
        lemma_line_not_blank(op);
        lemma_lines_cons(line, body);
        let ls = seq![line] + lines(body);
        assert(ls[0] == line);
        assert(ls.drop_first() =~= lines(body));
        assert(seq![op] + rest =~= ops);
    }
}

/// Round trip of the CSV codec for a whole set: writing records with distinct identifiers,
/// each valid and with a description that survives a line, and reading the table back gives
/// the same records in the same order, and the same set.
#[verifier::rlimit(100)]
#[verifier::spinoff_prover]
pub proof fn lemma_csv_set_round_trip(ops: Seq<OpView>)
    requires
        unique_ids(ops),
        forall|i: int|
            0 <= i < ops.len() ==> (#[trigger] ops[i]).valid() && csv_description(
                ops[i].description,
            ),
    ensures
        write_spec(ops) is Ok,
        parse_spec(write_spec(ops)->Ok_0) == Ok::<Seq<OpView>, ErrorKind>(ops),
        collect(ops) == ops,
{
    lemma_collect_unique(ops);
    lemma_csv_body(ops);
    let body = write_rows(ops)->Ok_0;
    reveal_strlit("TX_ID,TX_TYPE,FROM_USER_ID,TO_USER_ID,AMOUNT,TIMESTAMP,STATUS,DESCRIPTION");
    assert(header().len() == 73);
    assert(header().last() == 'N');
    lemma_lines_cons(header(), body);
    let ls = seq![header()] + lines(body);
    assert(ls[0] == header());
    assert(ls.drop_first() =~= lines(body));
}

} // verus!
