use vstd::prelude::*;

verus! {

/// One passenger record of a manifest: destination floor, name token,
/// and starting floor.
pub struct Record {
    pub destination: usize,
    pub name: Vec<u8>,
    pub start: usize,
}

/// Horizontal whitespace that separates fields within a line.
pub open spec fn is_ws(b: u8) -> bool {
    b == 32 || b == 9 || b == 13
}

/// An ASCII decimal digit.
pub open spec fn is_digit(b: u8) -> bool {
    48 <= b && b <= 57
}

/// The lines of a byte text, split on newline bytes; a text with no
/// newline is a single line, and a trailing newline opens a final
/// empty line.
pub open spec fn line_split(s: Seq<u8>) -> Seq<Seq<u8>>
    decreases s.len(),
{
    if s.len() == 0 {
        seq![Seq::<u8>::empty()]
    } else if s.last() == 10 {
        line_split(s.drop_last()).push(Seq::<u8>::empty())
    } else {
        let r = line_split(s.drop_last());
        r.update(r.len() - 1, r.last().push(s.last()))
    }
}

/// Splitting always yields at least one line.
pub proof fn lemma_line_split_len(s: Seq<u8>)
    ensures
        line_split(s).len() >= 1,
    decreases s.len(),
{
    if s.len() > 0 {
        lemma_line_split_len(s.drop_last());
    }
}

/// The whitespace-separated, non-empty tokens of one line, in order.
pub open spec fn tokens(s: Seq<u8>) -> Seq<Seq<u8>>
    decreases s.len(),
{
    if s.len() == 0 {
        Seq::empty()
    } else if is_ws(s.last()) {
        tokens(s.drop_last())
    } else if s.len() >= 2 && !is_ws(s[s.len() - 2]) {
        let r = tokens(s.drop_last());
        if r.len() > 0 {
            r.update(r.len() - 1, r.last().push(s.last()))
        } else {
            seq![seq![s.last()]]
        }
    } else {
        tokens(s.drop_last()).push(seq![s.last()])
    }
}

/// The number denoted by a sequence of decimal digits, most
/// significant first.
pub open spec fn digits_val(s: Seq<u8>) -> int
    decreases s.len(),
{
    if s.len() == 0 {
        0
    } else {
        digits_val(s.drop_last()) * 10 + (s.last() - 48)
    }
}

/// A non-empty, all-digit token.
pub open spec fn all_digits(s: Seq<u8>) -> bool {
    s.len() > 0 && forall|i: int| 0 <= i < s.len() ==> is_digit(#[trigger] s[i])
}

/// A token that denotes a number representable as a `usize`.
pub open spec fn number_token(s: Seq<u8>) -> bool {
    all_digits(s) && digits_val(s) <= usize::MAX
}

/// Appending one digit multiplies the value by ten and adds the digit.
pub proof fn lemma_digits_val_extend(s: Seq<u8>, i: int)
    requires
        0 <= i < s.len(),
    ensures
        digits_val(s.subrange(0, i + 1)) == digits_val(s.subrange(0, i)) * 10 + (s[i] - 48),
{
    assert(s.subrange(0, i + 1).drop_last() =~= s.subrange(0, i));
    assert(s.subrange(0, i + 1).last() == s[i]);
}

/// A digit string's value is non-negative and grows along its
/// prefixes.
pub proof fn lemma_digits_val_prefix(s: Seq<u8>, i: int)
    requires
        0 <= i <= s.len(),
        forall|j: int| 0 <= j < s.len() ==> is_digit(#[trigger] s[j]),
    ensures
        0 <= digits_val(s.subrange(0, i)) <= digits_val(s),
        digits_val(s) >= 0,
    decreases s.len() - i,
{
    if i == s.len() {
        assert(s.subrange(0, i) =~= s);
        lemma_digits_val_nonneg(s);
    } else {
        lemma_digits_val_prefix(s, i + 1);
        lemma_digits_val_extend(s, i);
        lemma_digits_val_nonneg(s.subrange(0, i));
        let v: int = digits_val(s.subrange(0, i));
        assert(v * 10 >= v) by (nonlinear_arith)
            requires
                v >= 0,
        ;
    }
}

/// The value of an all-digit string is non-negative.
pub proof fn lemma_digits_val_nonneg(s: Seq<u8>)
    requires
        forall|j: int| 0 <= j < s.len() ==> is_digit(#[trigger] s[j]),
    ensures
        digits_val(s) >= 0,
    decreases s.len(),
{
    if s.len() > 0 {
        lemma_digits_val_nonneg(s.drop_last());
        let v: int = digits_val(s.drop_last());
        assert(v * 10 >= 0) by (nonlinear_arith)
            requires
                v >= 0,
        ;
    }
}

/// Whether one manifest line carries a valid record: exactly three
/// fields, with numeric destination and start floors.
pub open spec fn line_record_ok(l: Seq<u8>) -> bool {
    &&& tokens(l).len() == 3
    &&& number_token(tokens(l)[0])
    &&& number_token(tokens(l)[2])
}

/// The passenger count announced on a manifest's first line.
pub open spec fn manifest_count(s: Seq<u8>) -> int {
    digits_val(tokens(line_split(s)[0])[0])
}

/// A well-formed manifest: the first line is a single numeric count
/// `C`, and each of the following `C` lines carries a valid record.
pub open spec fn manifest_ok(s: Seq<u8>) -> bool {
    let ls = line_split(s);
    &&& tokens(ls[0]).len() == 1
    &&& number_token(tokens(ls[0])[0])
    &&& manifest_count(s) + 1 <= ls.len()
    &&& forall|i: int| 1 <= i <= manifest_count(s) ==> line_record_ok(#[trigger] ls[i])
}

/// Splits a byte text into its lines.
#[verifier::loop_isolation(false)]
pub fn split_lines(text: &[u8]) -> (lines: Vec<Vec<u8>>)
    ensures
        lines@.len() == line_split(text@).len(),
        forall|i: int| 0 <= i < lines@.len() ==> (#[trigger] lines@[i])@ == line_split(text@)[i],
{
    let mut lines: Vec<Vec<u8>> = Vec::new();
    let mut cur: Vec<u8> = Vec::new();
    let mut i: usize = 0;
    while i < text.len()
        invariant
            i <= text@.len(),
            line_split(text@.subrange(0, i as int)) == lines@.map_values(|v: Vec<u8>| v@).push(
                cur@,
            ),
        decreases text@.len() - i,
    {
        let ghost pref = text@.subrange(0, i as int);
        let ghost lv = lines@.map_values(|v: Vec<u8>| v@);
        let ghost curv = cur@;
        let b = text[i];
        if b == 10 {
            lines.push(cur);
            cur = Vec::new();
        } else {
            cur.push(b);
        }
        i = i + 1;
        proof {
            let pref2 = text@.subrange(0, i as int);
            assert(pref2.drop_last() =~= pref);
            assert(pref2.last() == b);
            if b == 10 {
                assert(lines@.map_values(|v: Vec<u8>| v@) =~= lv.push(curv));
                assert(line_split(pref2) =~= lines@.map_values(|v: Vec<u8>| v@).push(cur@));
            } else {
                assert(line_split(pref2) =~= lines@.map_values(|v: Vec<u8>| v@).push(cur@));
            }
        }
    }
    lines.push(cur);
    proof {
        assert(text@.subrange(0, text@.len() as int) =~= text@);
        assert forall|j: int| 0 <= j < lines@.len() implies (#[trigger] lines@[j])@ == line_split(
            text@,
        )[j] by {
            assert(line_split(text@)[j] == lines@.map_values(|v: Vec<u8>| v@)[j]);
        }
    }
    lines
}

/// Splits one line into its whitespace-separated tokens.
#[verifier::loop_isolation(false)]
pub fn split_tokens(line: &Vec<u8>) -> (toks: Vec<Vec<u8>>)
    ensures
        toks@.len() == tokens(line@).len(),
        forall|i: int| 0 <= i < toks@.len() ==> (#[trigger] toks@[i])@ == tokens(line@)[i],
{
    let mut toks: Vec<Vec<u8>> = Vec::new();
    let mut cur: Vec<u8> = Vec::new();
    let mut i: usize = 0;
    while i < line.len()
        invariant
            i <= line@.len(),
            cur@.len() == 0 ==> tokens(line@.subrange(0, i as int)) == toks@.map_values(
                |v: Vec<u8>| v@,
            ),
            cur@.len() == 0 ==> (i == 0 || is_ws(line@[i as int - 1])),
            cur@.len() > 0 ==> tokens(line@.subrange(0, i as int)) == toks@.map_values(
                |v: Vec<u8>| v@,
            ).push(cur@),
            cur@.len() > 0 ==> (i > 0 && !is_ws(line@[i as int - 1])),
        decreases line@.len() - i,
    {
        let ghost pref = line@.subrange(0, i as int);
        let ghost tv = toks@.map_values(|v: Vec<u8>| v@);
        let ghost curv = cur@;
        let b = line[i];
        let ws = b == 32 || b == 9 || b == 13;
        if ws {
            if cur.len() > 0 {
                toks.push(cur);
                cur = Vec::new();
            }
        } else {
            cur.push(b);
        }
        i = i + 1;
        proof {
            let pref2 = line@.subrange(0, i as int);
            assert(pref2.drop_last() =~= pref);
            assert(pref2.last() == b);
            if ws {
                assert(tokens(pref2) == tokens(pref));
                if curv.len() > 0 {
                    assert(toks@.map_values(|v: Vec<u8>| v@) =~= tv.push(curv));
                    assert(tokens(pref2) == toks@.map_values(|v: Vec<u8>| v@));
                } else {
                    assert(tokens(pref2) == toks@.map_values(|v: Vec<u8>| v@));
                }
            } else {
                if curv.len() == 0 {
                    assert(pref2.len() >= 2 ==> is_ws(pref2[pref2.len() - 2]));
                    assert(tokens(pref2) =~= tokens(pref).push(seq![b]));
                    assert(cur@ =~= seq![b]);
                    assert(tokens(pref2) =~= toks@.map_values(|v: Vec<u8>| v@).push(cur@));
                } else {
                    assert(pref2.len() >= 2 && !is_ws(pref2[pref2.len() - 2]));
                    assert(tokens(pref) == tv.push(curv));
                    assert(tokens(pref).len() > 0);
                    assert(tokens(pref).last() == curv);
                    assert(cur@ == curv.push(b));
                    assert(tokens(pref2) =~= tv.push(curv.push(b)));
                    assert(tokens(pref2) =~= toks@.map_values(|v: Vec<u8>| v@).push(cur@));
                }
            }
        }
    }
    if cur.len() > 0 {
        toks.push(cur);
    }
    proof {
        assert(line@.subrange(0, line@.len() as int) =~= line@);
        assert forall|j: int| 0 <= j < toks@.len() implies (#[trigger] toks@[j])@ == tokens(
            line@,
        )[j] by {
            assert(tokens(line@)[j] == toks@.map_values(|v: Vec<u8>| v@)[j]);
        }
    }
    toks
}

/// Parses a non-empty all-digit token as a `usize`; `None` on any
/// other token or on overflow.
#[verifier::loop_isolation(false)]
pub fn parse_usize(tok: &Vec<u8>) -> (r: Option<usize>)
    ensures
        r is Some <==> number_token(tok@),
        r is Some ==> r.unwrap() as int == digits_val(tok@),
{
    if tok.len() == 0 {
        return None;
    }
    let mut val: usize = 0;
    let mut i: usize = 0;
    while i < tok.len()
        invariant
            i <= tok@.len(),
            forall|j: int| 0 <= j < i ==> is_digit(#[trigger] tok@[j]),
            val as int == digits_val(tok@.subrange(0, i as int)),
        decreases tok@.len() - i,
    {
        let b = tok[i];
        if b < 48 || b > 57 {
            return None;
        }
        let d = (b - 48) as usize;
        proof {
            lemma_digits_val_extend(tok@, i as int);
        }
        if val > (usize::MAX - d) / 10 {
            proof {
                let q: int = ((usize::MAX - d) / 10) as int;
                assert(val as int >= q + 1);
                assert((q + 1) * 10 > usize::MAX - d) by (nonlinear_arith)
                    requires
                        q == ((usize::MAX - d) / 10) as int,
                        0 <= d <= 9,
                ;
                assert(val as int * 10 >= (q + 1) * 10) by (nonlinear_arith)
                    requires
                        val as int >= q + 1,
                ;
                assert(digits_val(tok@.subrange(0, i as int + 1)) > usize::MAX);
                lemma_digits_val_prefix_partial(tok@, i as int + 1);
            }
            return None;
        }
        proof {
            let q: int = ((usize::MAX - d) / 10) as int;
            assert(q * 10 <= usize::MAX - d) by (nonlinear_arith)
                requires
                    q == ((usize::MAX - d) / 10) as int,
                    0 <= d <= 9,
            ;
            assert(val as int * 10 <= q * 10) by (nonlinear_arith)
                requires
                    val as int <= q,
            ;
        }
        val = val * 10 + d;
        i = i + 1;
    }
    proof {
        assert(tok@.subrange(0, tok@.len() as int) =~= tok@);
    }
    Some(val)
}

/// If some prefix of a digit string already denotes a number beyond a
/// bound, the whole string does too.
pub proof fn lemma_digits_val_prefix_partial(s: Seq<u8>, i: int)
    requires
        0 <= i <= s.len(),
        forall|j: int| 0 <= j < i ==> is_digit(#[trigger] s[j]),
    ensures
        all_digits(s) ==> digits_val(s) >= digits_val(s.subrange(0, i)),
{
    if all_digits(s) {
        lemma_digits_val_prefix(s, i);
    }
}

/// Parses a manifest text: a first line holding the passenger count
/// `C`, then `C` lines of `destination name start` fields. Returns the
/// records exactly when the text is well-formed, and `None` otherwise;
/// lines beyond the announced count are ignored.
#[verifier::loop_isolation(false)]
pub fn parse_manifest(text: &[u8]) -> (r: Option<Vec<Record>>)
    ensures
        r is Some <==> manifest_ok(text@),
        match r {
            Some(recs) => {
                &&& recs@.len() == manifest_count(text@)
                &&& forall|i: int|
                    0 <= i < recs@.len() ==> {
                        &&& (#[trigger] recs@[i]).destination as int == digits_val(
                            tokens(line_split(text@)[i + 1])[0],
                        )
                        &&& recs@[i].name@ == tokens(line_split(text@)[i + 1])[1]
                        &&& recs@[i].start as int == digits_val(
                            tokens(line_split(text@)[i + 1])[2],
                        )
                    }
            },
            None => true,
        },
{
    proof {
        lemma_line_split_len(text@);
    }
    let lines = split_lines(text);
    let toks0 = split_tokens(&lines[0]);
    if toks0.len() != 1 {
        return None;
    }
    let count = match parse_usize(&toks0[0]) {
        Some(c) => c,
        None => {
            return None;
        },
    };
    if count > lines.len() - 1 {
        return None;
    }
    let mut recs: Vec<Record> = Vec::new();
    let mut i: usize = 0;
    while i < count
        invariant
            i <= count,
            recs@.len() == i,
            forall|j: int| 1 <= j <= i ==> line_record_ok(#[trigger] line_split(text@)[j]),
            forall|j: int|
                0 <= j < i ==> {
                    &&& (#[trigger] recs@[j]).destination as int == digits_val(
                        tokens(line_split(text@)[j + 1])[0],
                    )
                    &&& recs@[j].name@ == tokens(line_split(text@)[j + 1])[1]
                    &&& recs@[j].start as int == digits_val(tokens(line_split(text@)[j + 1])[2])
                },
        decreases count - i,
    {
        let mut toks = split_tokens(&lines[i + 1]);
        if toks.len() != 3 {
            return None;
        }
        let destination = match parse_usize(&toks[0]) {
            Some(v) => v,
            None => {
                return None;
            },
        };
        let start = match parse_usize(&toks[2]) {
            Some(v) => v,
            None => {
                return None;
            },
        };
        let name = toks.remove(1);
        recs.push(Record { destination, name, start });
        i = i + 1;
    }
    Some(recs)
}

/// True iff every record addresses floors inside a building of
/// `floor_count` floors.
pub fn records_in_range(recs: &Vec<Record>, floor_count: usize) -> (b: bool)
    ensures
        b == forall|i: int|
            0 <= i < recs@.len() ==> (#[trigger] recs@[i]).destination < floor_count
                && recs@[i].start < floor_count,
{
    let mut i: usize = 0;
    while i < recs.len()
        invariant
            i <= recs@.len(),
            forall|j: int|
                0 <= j < i ==> (#[trigger] recs@[j]).destination < floor_count
                    && recs@[j].start < floor_count,
        decreases recs@.len() - i,
    {
        if recs[i].destination >= floor_count || recs[i].start >= floor_count {
            return false;
        }
        i = i + 1;
    }
    true
}

} // verus!
