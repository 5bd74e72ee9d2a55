//! The benchmark loader: parse a judged-query description into a mapping
//! from query string to its relevant document IDs.
//!
//! The description is line-oriented.  Every nonempty line holds a query, a
//! tab, and a comma-separated list of decimal document IDs (possibly empty).
//! Blank lines are skipped.  A malformed record fails the whole load with an
//! error naming the offending line, and so does a repeated query: the
//! mapping's invariant is that queries are unique.

use vstd::prelude::*;

verus! {

/// Whether `b` is an ASCII decimal digit.
pub open spec fn is_digit(b: u8) -> bool {
    48 <= b && b <= 57
}

/// The number denoted by a sequence of decimal digits.
pub open spec fn digits_val(s: Seq<u8>) -> int
    decreases s.len(),
{
    if s.len() == 0 {
        0
    } else {
        digits_val(s.drop_last()) * 10 + (s.last() - 48)
    }
}

pub open spec fn all_digits(s: Seq<u8>) -> bool {
    forall|i: int| 0 <= i < s.len() ==> is_digit(#[trigger] s[i])
}

/// A well-formed document ID: one or more digits denoting a value that fits
/// in a `u64`.
pub open spec fn is_id(s: Seq<u8>) -> bool {
    s.len() >= 1 && all_digits(s) && digits_val(s) <= u64::MAX as int
}

/// The position of the first occurrence of `b` in `s`, or `s.len()` when `b`
/// does not occur.
pub open spec fn first_index(s: Seq<u8>, b: u8) -> nat
    decreases s.len(),
{
    if s.len() == 0 {
        0
    } else if s[0] == b {
        0
    } else {
        1 + first_index(s.drop_first(), b)
    }
}

/// `s` split on `b`: the separators are dropped, and `n` separators yield
/// `n + 1` (possibly empty) segments.
pub open spec fn split_on(s: Seq<u8>, b: u8) -> Seq<Seq<u8>>
    decreases s.len(),
{
    let i = first_index(s, b);
    if i >= s.len() {
        seq![s]
    } else {
        seq![s.take(i as int)] + split_on(s.skip(i as int + 1), b)
    }
}

/// The IDs denoted by the first `n` segments, or nothing if one of them is
/// not a well-formed ID.
pub open spec fn ids_of_segs(segs: Seq<Seq<u8>>, n: int) -> Option<Seq<u64>>
    decreases n,
{
    if n <= 0 {
        Some(Seq::empty())
    } else {
        match ids_of_segs(segs, n - 1) {
            Option::None => Option::None,
            Option::Some(pre) => if is_id(segs[n - 1]) {
                Some(pre.push(digits_val(segs[n - 1]) as u64))
            } else {
                Option::None
            },
        }
    }
}

/// A comma-separated list of IDs; the empty sequence denotes no IDs.
pub open spec fn parse_ids(s: Seq<u8>) -> Option<Seq<u64>> {
    if s.len() == 0 {
        Some(Seq::empty())
    } else {
        ids_of_segs(split_on(s, 44), split_on(s, 44).len() as int)
    }
}

/// Why a benchmark description was rejected.
#[derive(Clone, Copy, Debug, PartialEq, Eq, Structural)]
pub enum ParseErrorKind {
    /// A nonempty line holds no tab between query and IDs.
    MissingSeparator,
    /// An entry of the ID list is not a decimal number that fits in a `u64`.
    BadId,
    /// The same query appears on two lines.
    DuplicateQuery,
}

/// One line: the query before the first tab, the ID list after it.
pub open spec fn parse_line(l: Seq<u8>) -> Result<(Seq<u8>, Seq<u64>), ParseErrorKind> {
    let t = first_index(l, 9);
    if t >= l.len() {
        Err(ParseErrorKind::MissingSeparator)
    } else {
        match parse_ids(l.skip(t as int + 1)) {
            Option::None => Err(ParseErrorKind::BadId),
            Option::Some(ids) => Ok((l.take(t as int), ids)),
        }
    }
}

/// The queries of a sequence of parsed entries.
pub open spec fn queries_of(entries: Seq<(Seq<u8>, Seq<u64>)>) -> Seq<Seq<u8>> {
    Seq::new(entries.len(), |i: int| entries[i].0)
}

/// The entries denoted by the first `n` lines, blank lines skipped; or the
/// first offense, as a one-based line number and a kind.
pub open spec fn parse_lines(ls: Seq<Seq<u8>>, n: int) -> Result<
    Seq<(Seq<u8>, Seq<u64>)>,
    (int, ParseErrorKind),
>
    decreases n,
{
    if n <= 0 {
        Ok(Seq::empty())
    } else {
        match parse_lines(ls, n - 1) {
            Err(e) => Err(e),
            Ok(pre) => {
                if ls[n - 1].len() == 0 {
                    Ok(pre)
                } else {
                    match parse_line(ls[n - 1]) {
                        Err(k) => Err((n, k)),
                        Ok(entry) => if queries_of(pre).contains(entry.0) {
                            Err((n, ParseErrorKind::DuplicateQuery))
                        } else {
                            Ok(pre.push(entry))
                        },
                    }
                }
            },
        }
    }
}

/// A whole description: its lines, parsed in order.
pub open spec fn parse_benchmark(text: Seq<u8>) -> Result<
    Seq<(Seq<u8>, Seq<u64>)>,
    (int, ParseErrorKind),
> {
    parse_lines(split_on(text, 10), split_on(text, 10).len() as int)
}

/// One judged query: its query string (as bytes) and the document IDs judged
/// relevant for it.
#[derive(Debug)]
pub struct BenchmarkEntry {
    pub query: Vec<u8>,
    pub relevant: Vec<u64>,
}

impl View for BenchmarkEntry {
    type V = (Seq<u8>, Seq<u64>);

    open spec fn view(&self) -> Self::V {
        (self.query@, self.relevant@)
    }
}

pub open spec fn entry_views(s: Seq<BenchmarkEntry>) -> Seq<(Seq<u8>, Seq<u64>)> {
    Seq::new(s.len(), |i: int| (s[i].query@, s[i].relevant@))
}

/// A parsed benchmark: the query-to-relevant-IDs mapping, in file order.
#[derive(Debug)]
pub struct Benchmark {
    pub entries: Vec<BenchmarkEntry>,
}

impl View for Benchmark {
    type V = Seq<(Seq<u8>, Seq<u64>)>;

    open spec fn view(&self) -> Self::V {
        entry_views(self.entries@)
    }
}

impl Benchmark {
    /// The mapping's invariant: every query appears once.
    pub open spec fn wf(self) -> bool {
        forall|i: int, j: int|
            0 <= i < j < self.entries@.len() ==> self.entries@[i].query@
                != self.entries@[j].query@
    }
}

/// A rejected benchmark description: the one-based offending line and why.
#[derive(Clone, Copy, Debug, PartialEq, Eq, Structural)]
pub struct ParseError {
    pub line: usize,
    pub kind: ParseErrorKind,
}

proof fn lemma_first_index_is(s: Seq<u8>, b: u8, i: int)
    requires
        0 <= i <= s.len(),
        forall|k: int| 0 <= k < i ==> s[k] != b,
        i < s.len() ==> s[i] == b,
    ensures
        first_index(s, b) == i,
    decreases i,
{
    if i == 0 {
    } else {
        assert(s[0] != b);
        assert forall|k: int| 0 <= k < i - 1 implies s.drop_first()[k] != b by {
            assert(s.drop_first()[k] == s[k + 1]);
        }
        if i - 1 < s.drop_first().len() {
            assert(s.drop_first()[i - 1] == s[i]);
        }
        lemma_first_index_is(s.drop_first(), b, i - 1);
    }
}

proof fn lemma_ids_none_mono(segs: Seq<Seq<u8>>, m: int, n: int)
    requires
        0 <= m <= n,
        ids_of_segs(segs, m) is None,
    ensures
        ids_of_segs(segs, n) is None,
    decreases n,
{
    if m < n {
        lemma_ids_none_mono(segs, m, n - 1);
    }
}

proof fn lemma_parse_lines_err_mono(ls: Seq<Seq<u8>>, m: int, n: int, e: (int, ParseErrorKind))
    requires
        0 <= m <= n,
        parse_lines(ls, m) == Err::<Seq<(Seq<u8>, Seq<u64>)>, (int, ParseErrorKind)>(e),
    ensures
        parse_lines(ls, n) == Err::<Seq<(Seq<u8>, Seq<u64>)>, (int, ParseErrorKind)>(e),
    decreases n,
{
    if m < n {
        lemma_parse_lines_err_mono(ls, m, n - 1, e);
    }
}

proof fn lemma_digits_val_nonneg(s: Seq<u8>)
    requires
        all_digits(s),
    ensures
        digits_val(s) >= 0,
    decreases s.len(),
{
    if s.len() > 0 {
        assert(all_digits(s.drop_last())) by {
            assert forall|i: int| 0 <= i < s.drop_last().len() implies is_digit(
                #[trigger] s.drop_last()[i],
            ) by {
                assert(s.drop_last()[i] == s[i]);
            }
        }
        lemma_digits_val_nonneg(s.drop_last());
    }
}

proof fn lemma_digits_val_mono(s: Seq<u8>, m: int, n: int)
    requires
        0 <= m <= n <= s.len(),
        all_digits(s),
    ensures
        digits_val(s.take(m)) <= digits_val(s.take(n)),
    decreases n,
{
    if m < n {
        lemma_digits_val_mono(s, m, n - 1);
        let p = s.take(n);
        assert(p.drop_last() =~= s.take(n - 1));
        assert(all_digits(s.take(n - 1))) by {
            assert forall|i: int| 0 <= i < n - 1 implies is_digit(#[trigger] s.take(n - 1)[i]) by {
                assert(s.take(n - 1)[i] == s[i]);
            }
        }
        lemma_digits_val_nonneg(s.take(n - 1));
        assert(is_digit(p.last()));
    }
}

/// The whole sequence is its own `take`.
proof fn lemma_take_all(s: Seq<u8>)
    ensures
        s.take(s.len() as int) == s,
{
    assert(s.take(s.len() as int) =~= s);
}

/// A decimal number, or `None` exactly when the bytes are not a well-formed
/// ID.
fn parse_u64(s: &Vec<u8>) -> (r: Option<u64>)
    ensures
        r is Some <==> is_id(s@),
        r matches Some(v) ==> v as int == digits_val(s@),
{
    if s.len() == 0 {
        return None;
    }
    let mut val: u64 = 0;
    let mut i: usize = 0;
    while i < s.len()
        invariant
            i <= s@.len(),
            s@.len() >= 1,
            forall|j: int| 0 <= j < i ==> is_digit(#[trigger] s@[j]),
            val as int == digits_val(s@.take(i as int)),
        decreases s@.len() - i,
    {
        let b = s[i];
        if b < 48 || b > 57 {
            return None;
        }
        let ghost pre = s@.take(i as int);
        proof {
            assert(s@.take(i + 1).drop_last() =~= pre);
            assert(s@.take(i + 1).last() == s@[i as int]);
        }
        let d = (b - 48) as u64;
        let nv = (val as u128) * 10 + (d as u128);
        if nv > u64::MAX as u128 {
            proof {
                if is_id(s@) {
                    lemma_digits_val_mono(s@, i + 1, s@.len() as int);
                    lemma_take_all(s@);
                }
            }
            return None;
        }
        val = nv as u64;
        i = i + 1;
    }
    proof {
        lemma_take_all(s@);
    }
    Some(val)
}

/// Whether two byte vectors hold the same bytes.
fn bytes_eq(a: &Vec<u8>, b: &Vec<u8>) -> (r: bool)
    ensures
        r == (a@ == b@),
{
    if a.len() != b.len() {
        return false;
    }
    let mut i: usize = 0;
    while i < a.len()
        invariant
            a@.len() == b@.len(),
            i <= a@.len(),
            forall|j: int| 0 <= j < i ==> a@[j] == b@[j],
        decreases a@.len() - i,
    {
        if a[i] != b[i] {
            return false;
        }
        i = i + 1;
    }
    proof {
        assert(a@ =~= b@);
    }
    true
}

pub open spec fn seq_views(s: Seq<Vec<u8>>) -> Seq<Seq<u8>> {
    Seq::new(s.len(), |i: int| s[i]@)
}

/// `v` split on the byte `sep`, as `split_on` describes.
fn split_byte(v: &Vec<u8>, sep: u8) -> (r: Vec<Vec<u8>>)
    ensures
        seq_views(r@) == split_on(v@, sep),
{
    let mut result: Vec<Vec<u8>> = Vec::new();
    let mut start: usize = 0;
    proof {
        assert(v@.skip(0) =~= v@);
        assert(seq_views(result@) + split_on(v@, sep) =~= split_on(v@, sep));
    }
    loop
        invariant
            start <= v@.len(),
            seq_views(result@) + split_on(v@.skip(start as int), sep) == split_on(v@, sep),
        decreases v@.len() - start,
    {
        let mut j: usize = start;
        while j < v.len() && v[j] != sep
            invariant
                start <= j <= v@.len(),
                forall|k: int| start <= k < j ==> v@[k] != sep,
            decreases v@.len() - j,
        {
            j = j + 1;
        }
        let mut seg: Vec<u8> = Vec::new();
        let mut t: usize = start;
        while t < j
            invariant
                start <= t <= j,
                j <= v@.len(),
                seg@ == v@.subrange(start as int, t as int),
            decreases j - t,
        {
            seg.push(v[t]);
            proof {
                assert(seg@ =~= v@.subrange(start as int, t + 1));
            }
            t = t + 1;
        }
        let ghost s = v@.skip(start as int);
        let ghost before = seq_views(result@);
        let ghost segv = seg@;
        proof {
            assert forall|k: int| 0 <= k < j - start implies s[k] != sep by {
                assert(s[k] == v@[start + k]);
            }
            if (j as int) < v@.len() {
                assert(s[j - start] == v@[j as int]);
            }
            lemma_first_index_is(s, sep, j - start);
            assert(seg@ =~= s.take(j - start));
        }
        result.push(seg);
        proof {
            assert(seq_views(result@) =~= before.push(segv));
        }
        if j == v.len() {
            proof {
                assert(s.take(j - start) =~= s);
                assert(split_on(s, sep) == seq![s]);
                assert(seq_views(result@) =~= before + seq![s]);
            }
            return result;
        }

        proof {
            assert(s.skip(j - start + 1) =~= v@.skip(j + 1));
            assert(split_on(s, sep) == seq![s.take(j - start)] + split_on(v@.skip(j + 1), sep));
            assert(seq_views(result@) + split_on(v@.skip(j + 1), sep) =~= (before + seq![segv])
                + split_on(v@.skip(j + 1), sep));
            assert((before + seq![segv]) + split_on(v@.skip(j + 1), sep) =~= before + (seq![segv]
                + split_on(v@.skip(j + 1), sep)));
        }
        start = j + 1;
    }
}

/// The comma-separated ID list of one line's tail, or `None` exactly when
/// `parse_ids` rejects it.
fn parse_id_list(s: &Vec<u8>) -> (r: Option<Vec<u64>>)
    ensures
        r is Some <==> parse_ids(s@) is Some,
        r matches Some(v) ==> parse_ids(s@) == Some(v@),
{
    let mut ids: Vec<u64> = Vec::new();
    if s.len() == 0 {
        proof {
            assert(ids@ =~= Seq::<u64>::empty());
        }
        return Some(ids);
    }
    let segs = split_byte(s, 44);
    let ghost sv = split_on(s@, 44);
    let mut i: usize = 0;
    while i < segs.len()
        invariant
            sv == split_on(s@, 44),
            seq_views(segs@) == sv,
            segs@.len() == sv.len(),
            i <= segs@.len(),
            s@.len() >= 1,
            ids_of_segs(sv, i as int) == Some(ids@),
        decreases segs@.len() - i,
    {
        proof {
            assert(segs@[i as int]@ == sv[i as int]);
        }
        match parse_u64(&segs[i]) {
            Some(v) => {
                ids.push(v);
            },
            None => {
                proof {
                    assert(!is_id(sv[i as int]));
                    assert(ids_of_segs(sv, i as int + 1) is None);
                    lemma_ids_none_mono(sv, i as int + 1, sv.len() as int);
                    assert(parse_ids(s@) is None);
                }
                return None;
            },
        }
        i = i + 1;
    }
    Some(ids)
}

/// Load a benchmark description: parse every line, enforce query uniqueness,
/// and return the mapping, or the first offense with its one-based line
/// number.
#[verifier::rlimit(80)]
pub fn load_benchmark(text: &Vec<u8>) -> (r: Result<Benchmark, ParseError>)
    ensures
        r matches Ok(b) ==> b.wf() && parse_benchmark(text@) == Ok::<
            Seq<(Seq<u8>, Seq<u64>)>,
            (int, ParseErrorKind),
        >(b@),
        r matches Err(e) ==> (parse_benchmark(text@) matches Err(se) && se.0 == e.line as int
            && se.1 == e.kind),
{
    let lines = split_byte(text, 10);
    let ghost lv = split_on(text@, 10);
    let mut entries: Vec<BenchmarkEntry> = Vec::new();
    let mut i: usize = 0;
    proof {
        assert(entry_views(entries@) =~= Seq::<(Seq<u8>, Seq<u64>)>::empty());
    }
    while i < lines.len()
        invariant
            lv == split_on(text@, 10),
            seq_views(lines@) == lv,
            lines@.len() == lv.len(),
            i <= lines@.len(),
            parse_lines(lv, i as int) == Ok::<Seq<(Seq<u8>, Seq<u64>)>, (int, ParseErrorKind)>(
                entry_views(entries@),
            ),
            forall|p: int, q: int|
                0 <= p < q < entries@.len() ==> entries@[p].query@ != entries@[q].query@,
        decreases lines@.len() - i,
    {
        let ghost pre = entry_views(entries@);
        let line = &lines[i];
        proof {
            assert(line@ == lv[i as int]);
        }
        if line.len() > 0 {
            let mut j: usize = 0;
            while j < line.len() && line[j] != 9
                invariant
                    j <= line@.len(),
                    forall|k: int| 0 <= k < j ==> line@[k] != 9,
                decreases line@.len() - j,
            {
                j = j + 1;
            }
            proof {
                lemma_first_index_is(line@, 9, j as int);
            }
            if j == line.len() {
                proof {
                    lemma_parse_lines_err_mono(
                        lv,
                        i as int + 1,
                        lv.len() as int,
                        (i as int + 1, ParseErrorKind::MissingSeparator),
                    );
                }
                return Err(ParseError { line: i + 1, kind: ParseErrorKind::MissingSeparator });
            }
            let mut query: Vec<u8> = Vec::new();
            let mut t: usize = 0;
            while t < j
                invariant
                    t <= j,
                    j < line@.len(),
                    query@ == line@.subrange(0, t as int),
                decreases j - t,
            {
                query.push(line[t]);
                proof {
                    assert(query@ =~= line@.subrange(0, t + 1));
                }
                t = t + 1;
            }
            proof {
                assert(query@ =~= line@.take(j as int));
            }
            let mut rest: Vec<u8> = Vec::new();
            let mut u: usize = j + 1;
            while u < line.len()
                invariant
                    j + 1 <= u <= line@.len(),
                    rest@ == line@.subrange(j + 1, u as int),
                decreases line@.len() - u,
            {
                rest.push(line[u]);
                proof {
                    assert(rest@ =~= line@.subrange(j + 1, u + 1));
                }
                u = u + 1;
            }
            proof {
                assert(rest@ =~= line@.skip(j + 1));
            }
            let ids = match parse_id_list(&rest) {
                Some(v) => v,
                None => {
                    proof {
                        lemma_parse_lines_err_mono(
                            lv,
                            i as int + 1,
                            lv.len() as int,
                            (i as int + 1, ParseErrorKind::BadId),
                        );
                    }
                    return Err(ParseError { line: i + 1, kind: ParseErrorKind::BadId });
                },
            };
            let mut dup = false;
            let mut d: usize = 0;
            while d < entries.len()
                invariant
                    d <= entries@.len(),
                    entry_views(entries@) == pre,
                    dup ==> queries_of(pre).contains(query@),
                    !dup ==> forall|k: int| 0 <= k < d ==> entries@[k].query@ != query@,
                decreases entries@.len() - d,
            {
                if !dup && bytes_eq(&entries[d].query, &query) {
                    dup = true;
                    proof {
                        assert(queries_of(pre)[d as int] == query@);
                    }
                }
                d = d + 1;
            }
            if dup {
                proof {
                    lemma_parse_lines_err_mono(
                        lv,
                        i as int + 1,
                        lv.len() as int,
                        (i as int + 1, ParseErrorKind::DuplicateQuery),
                    );
                }
                return Err(ParseError { line: i + 1, kind: ParseErrorKind::DuplicateQuery });
            }
            proof {
                assert(!queries_of(pre).contains(query@)) by {
                    assert forall|k: int| 0 <= k < pre.len() implies queries_of(pre)[k] != query@ by {
                        assert(queries_of(pre)[k] == entries@[k].query@);
                    }
                }
            }
            let ghost qv = query@;
            let ghost idsv = ids@;
            let entry = BenchmarkEntry { query, relevant: ids };
            entries.push(entry);
            proof {
                assert(entry_views(entries@) =~= pre.push((qv, idsv)));
                assert(parse_line(lv[i as int]) == Ok::<(Seq<u8>, Seq<u64>), ParseErrorKind>(
                    (qv, idsv),
                ));
                assert(parse_lines(lv, i as int + 1) == Ok::<
                    Seq<(Seq<u8>, Seq<u64>)>,
                    (int, ParseErrorKind),
                >(entry_views(entries@)));
                assert forall|p: int, q: int|
                    0 <= p < q < entries@.len() implies entries@[p].query@
                    != entries@[q].query@ by {
                    if q == entries@.len() - 1 {
                        assert(entries@[p].query@ != qv);
                    }
                }
            }
        }
        i = i + 1;
    }
    Ok(Benchmark { entries })
}

} // verus!
