use vstd::prelude::*;

verus! {

/// The text that the bytes of a field stand for.
pub uninterp spec fn decoded(b: Seq<u8>) -> Seq<char>;

/// The value that arrow's integer parser reads from the bytes of a field.
pub uninterp spec fn integer_value(b: Seq<u8>) -> Option<i64>;

/// Whether arrow's floating-point parser accepts the bytes of a field.
pub uninterp spec fn float_text(b: Seq<u8>) -> bool;

/// Relies on `String::from_utf8_lossy`: the text depends on the bytes alone.
#[verifier::external_body]
pub(crate) fn decode_text(b: &[u8]) -> (r: String)
    ensures
        r@ == decoded(b@),
{
    String::from_utf8_lossy(b).into_owned()
}

/// Relies on arrow's `Parser::parse` for `Int64Type`, which reads a signed
/// decimal integer, trimming ASCII whitespace where the text does not start
/// or end with a digit, and gives `None` where the text is no such integer
/// or does not fit in 64 bits.
#[verifier::external_body]
pub(crate) fn parse_integer(b: &[u8]) -> (r: Option<i64>)
    ensures
        r == integer_value(b@),
{
    match std::str::from_utf8(b) {
        Ok(s) => <arrow::datatypes::Int64Type as arrow::compute::kernels::cast_utils::Parser>::parse(s),
        Err(_) => None,
    }
}

/// Relies on arrow's `Parser::parse` for `Float64Type`: whether it reads a
/// floating-point number from the text.
#[verifier::external_body]
pub(crate) fn is_float_text(b: &[u8]) -> (r: bool)
    ensures
        r == float_text(b@),
{
    match std::str::from_utf8(b) {
        Ok(s) => <arrow::datatypes::Float64Type as arrow::compute::kernels::cast_utils::Parser>::parse(s).is_some(),
        Err(_) => false,
    }
}

pub open spec fn lower_byte(c: u8) -> u8 {
    if 65 <= c && c <= 90 {
        (c + 32) as u8
    } else {
        c
    }
}

/// `b` spells `w` in ASCII, letters in either case.
pub open spec fn same_word(b: Seq<u8>, w: Seq<u8>) -> bool {
    b.len() == w.len() && forall|i: int| 0 <= i < b.len() ==> lower_byte(#[trigger] b[i]) == w[i]
}

pub open spec fn true_word() -> Seq<u8> {
    seq![116u8, 114u8, 117u8, 101u8]
}

pub open spec fn false_word() -> Seq<u8> {
    seq![102u8, 97u8, 108u8, 115u8, 101u8]
}

/// A boolean field is `true` or `false`, in any mix of case.
pub open spec fn boolean_value(b: Seq<u8>) -> Option<bool> {
    if same_word(b, true_word()) {
        Some(true)
    } else if same_word(b, false_word()) {
        Some(false)
    } else {
        None
    }
}

fn lower(c: u8) -> (r: u8)
    ensures
        r == lower_byte(c),
{
    if 65 <= c && c <= 90 {
        c + 32
    } else {
        c
    }
}

fn spells(b: &[u8], w: &[u8]) -> (r: bool)
    ensures
        r == same_word(b@, w@),
{
    if b.len() != w.len() {
        return false;
    }
    let mut i: usize = 0;
    while i < b.len()
        invariant
            b@.len() == w@.len(),
            i <= b@.len(),
            forall|k: int| 0 <= k < i ==> lower_byte(#[trigger] b@[k]) == w@[k],
        decreases b@.len() - i,
    {
        if lower(b[i]) != w[i] {
            return false;
        }
        i = i + 1;
    }
    true
}

/// Reads a boolean field: `true` or `false`, case aside.
pub fn parse_boolean(b: &[u8]) -> (r: Option<bool>)
    ensures
        r == boolean_value(b@),
{
    let t: [u8; 4] = [116u8, 114u8, 117u8, 101u8];
    let f: [u8; 5] = [102u8, 97u8, 108u8, 115u8, 101u8];
    assert(t@ =~= true_word());
    assert(f@ =~= false_word());
    if spells(b, t.as_slice()) {
        Some(true)
    } else if spells(b, f.as_slice()) {
        Some(false)
    } else {
        None
    }
}

/// The pieces of `s` between occurrences of `sep`, in order; there is one
/// more piece than there are separators.
pub open spec fn split_on(s: Seq<u8>, sep: u8) -> Seq<Seq<u8>>
    decreases s.len(),
{
    if s.len() == 0 {
        seq![Seq::<u8>::empty()]
    } else {
        let prev = split_on(s.drop_last(), sep);
        if s.last() == sep {
            prev.push(Seq::<u8>::empty())
        } else {
            prev.update(prev.len() - 1, prev.last().push(s.last()))
        }
    }
}

pub proof fn lemma_split_nonempty(s: Seq<u8>, sep: u8)
    ensures
        split_on(s, sep).len() >= 1,
    decreases s.len(),
{
    if s.len() > 0 {
        lemma_split_nonempty(s.drop_last(), sep);
    }
}

/// The contents of each byte vector, in order.
pub open spec fn views(v: Seq<Vec<u8>>) -> Seq<Seq<u8>> {
    v.map_values(|x: Vec<u8>| x@)
}

/// Splits `s` at each `sep`, as `split_on` says.
pub fn split_bytes(s: &[u8], sep: u8) -> (r: Vec<Vec<u8>>)
    ensures
        views(r@) == split_on(s@, sep),
{
    let mut done: Vec<Vec<u8>> = Vec::new();
    let mut cur: Vec<u8> = Vec::new();
    let mut i: usize = 0;
    proof {
        assert(s@.subrange(0, 0) =~= Seq::<u8>::empty());
        assert(views(done@).push(cur@) =~= split_on(s@.subrange(0, 0), sep));
    }
    while i < s.len()
        invariant
            i <= s@.len(),
            views(done@).push(cur@) == split_on(s@.subrange(0, i as int), sep),
        decreases s@.len() - i,
    {
        let c = s[i];
        proof {
            let p = s@.subrange(0, i as int + 1);
            assert(p.drop_last() =~= s@.subrange(0, i as int));
            assert(p.last() == c);
            lemma_split_nonempty(s@.subrange(0, i as int), sep);
        }
        if c == sep {
            let ghost before = views(done@);
            let mut piece: Vec<u8> = Vec::new();
            std::mem::swap(&mut cur, &mut piece);
            done.push(piece);
            proof {
                assert(views(done@) =~= before.push(piece@));
                assert(views(done@).push(cur@) =~= split_on(s@.subrange(0, i as int + 1), sep));
            }
        } else {
            cur.push(c);
            proof {
                assert(views(done@).push(cur@) =~= split_on(s@.subrange(0, i as int + 1), sep));
            }
        }
        i = i + 1;
    }
    proof {
        assert(s@.subrange(0, s@.len() as int) =~= s@);
    }
    done.push(cur);
    proof {
        assert(views(done@) =~= split_on(s@, sep));
    }
    done
}

/// The pieces of a text between line feeds, less the empty piece that a
/// final line feed leaves.
pub open spec fn lines_of(text: Seq<u8>) -> Seq<Seq<u8>> {
    let p = split_on(text, 10u8);
    if p.last().len() == 0 {
        p.drop_last()
    } else {
        p
    }
}

/// A line less the carriage return that ends it, if any.
pub open spec fn strip_cr(line: Seq<u8>) -> Seq<u8> {
    if line.len() > 0 && line.last() == 13u8 {
        line.drop_last()
    } else {
        line
    }
}

/// The lines of a text: a line ends at a line feed, or at a carriage return
/// and a line feed.
pub open spec fn records_of(text: Seq<u8>) -> Seq<Seq<u8>> {
    lines_of(text).map_values(|l: Seq<u8>| strip_cr(l))
}

/// Every line of a text, split into its fields.
pub open spec fn rows_of(text: Seq<u8>, delimiter: u8) -> Seq<Seq<Seq<u8>>> {
    records_of(text).map_values(|r: Seq<u8>| split_on(r, delimiter))
}

/// The fields of each row, in order.
pub open spec fn row_views(v: Seq<Vec<Vec<u8>>>) -> Seq<Seq<Seq<u8>>> {
    v.map_values(|r: Vec<Vec<u8>>| views(r@))
}

/// Splits a text into lines, and each line into fields.
pub fn split_rows(text: &[u8], delimiter: u8) -> (r: Vec<Vec<Vec<u8>>>)
    ensures
        row_views(r@) == rows_of(text@, delimiter),
{
    let mut lines = split_bytes(text, 10u8);
    proof {
        lemma_split_nonempty(text@, 10u8);
    }
    let ghost all = views(lines@);
    if lines[lines.len() - 1].len() == 0 {
        lines.pop();
        proof {
            assert(views(lines@) =~= all.drop_last());
        }
    }
    let ghost recs = views(lines@);
    assert(recs == lines_of(text@));
    let mut out: Vec<Vec<Vec<u8>>> = Vec::new();
    let mut i: usize = 0;
    while i < lines.len()
        invariant
            i <= lines@.len(),
            recs == views(lines@),
            row_views(out@) =~= Seq::new(i as nat, |k: int| split_on(strip_cr(recs[k]), delimiter)),
        decreases lines@.len() - i,
    {
        let line = lines[i].as_slice();
        let n = line.len();
        let body = if n > 0 && line[n - 1] == 13u8 {
            vstd::slice::slice_subrange(line, 0, n - 1)
        } else {
            line
        };
        proof {
            assert(line@ == recs[i as int]);
            assert(body@ =~= strip_cr(recs[i as int]));
        }
        let fields = split_bytes(body, delimiter);
        let ghost before = out@;
        out.push(fields);
        proof {
            assert(out@ =~= before.push(fields));
            assert(row_views(out@) =~= row_views(before).push(views(fields@)));
        }
        i = i + 1;
    }
    proof {
        assert(row_views(out@) =~= rows_of(text@, delimiter));
    }
    out
}

} // verus!
