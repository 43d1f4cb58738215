use vstd::prelude::*;

verus! {

broadcast use vstd::seq_lib::group_seq_properties;

/// Unicode white space (the `White_Space` property, as `char::is_whitespace`
/// documents it): U+0009..U+000D, U+0020, U+0085, U+00A0, U+1680,
/// U+2000..U+200A, U+2028, U+2029, U+202F, U+205F and U+3000.
pub open spec fn is_white_space(c: char) -> bool {
    let v = c as u32;
    ||| 0x9 <= v <= 0xD
    ||| v == 0x20
    ||| v == 0x85
    ||| v == 0xA0
    ||| v == 0x1680
    ||| 0x2000 <= v <= 0x200A
    ||| v == 0x2028
    ||| v == 0x2029
    ||| v == 0x202F
    ||| v == 0x205F
    ||| v == 0x3000
}

/// `s` without its leading white space.
pub open spec fn trim_start(s: Seq<char>) -> Seq<char>
    decreases s.len(),
{
    if s.len() > 0 && is_white_space(s[0]) {
        trim_start(s.drop_first())
    } else {
        s
    }
}

/// `s` without its trailing white space.
pub open spec fn trim_end(s: Seq<char>) -> Seq<char>
    decreases s.len(),
{
    if s.len() > 0 && is_white_space(s.last()) {
        trim_end(s.drop_last())
    } else {
        s
    }
}

/// `s` without leading and trailing white space.
pub open spec fn trim(s: Seq<char>) -> Seq<char> {
    trim_end(trim_start(s))
}

/// The pieces of `text` between line feeds (one more piece than there are
/// line feeds).
pub open spec fn lines_of(text: Seq<char>) -> Seq<Seq<char>>
    decreases text.len(),
{
    if text.len() == 0 {
        seq![Seq::empty()]
    } else {
        let prev = lines_of(text.drop_last());
        if text.last() == '\n' {
            prev.push(Seq::empty())
        } else {
            prev.update(prev.len() - 1, prev.last().push(text.last()))
        }
    }
}

/// The documents of a corpus: its lines, trimmed, without the empty ones.
pub open spec fn corpus_docs(text: Seq<char>) -> Seq<Seq<char>> {
    lines_of(text).map_values(|l: Seq<char>| trim(l)).filter(|d: Seq<char>| d.len() > 0)
}

/// `docs` is, in order, the trimmed lines of `lines` whose trim is not
/// empty, `ix` giving the line each document comes from: one document per
/// such line, so a repeated line gives a repeated document.
pub open spec fn picks_nonblank_lines(
    lines: Seq<Seq<char>>,
    docs: Seq<Seq<char>>,
    ix: Seq<int>,
) -> bool {
    &&& ix.len() == docs.len()
    &&& forall|a: int, b: int| #![trigger ix[a], ix[b]] 0 <= a < b < ix.len() ==> ix[a] < ix[b]
    &&& forall|k: int|
        #![trigger ix[k]]
        0 <= k < ix.len() ==> {
            &&& 0 <= ix[k] < lines.len()
            &&& docs[k] == trim(lines[ix[k]])
            &&& docs[k].len() > 0
        }
    &&& forall|l: int|
        0 <= l < lines.len() && #[trigger] trim(lines[l]).len() > 0 ==> ix.contains(l)
}

proof fn lemma_picks_push(lines: Seq<Seq<char>>, docs: Seq<Seq<char>>, ix: Seq<int>, line: Seq<char>)
    requires
        picks_nonblank_lines(lines, docs, ix),
    ensures
        trim(line).len() > 0 ==> picks_nonblank_lines(
            lines.push(line),
            docs.push(trim(line)),
            ix.push(lines.len() as int),
        ),
        trim(line).len() == 0 ==> picks_nonblank_lines(lines.push(line), docs, ix),
{
    let l2 = lines.push(line);
    if trim(line).len() > 0 {
        let ix2 = ix.push(lines.len() as int);
        let d2 = docs.push(trim(line));
        assert forall|k: int| #![trigger ix2[k]] 0 <= k < ix2.len() implies {
            &&& 0 <= ix2[k] < l2.len()
            &&& d2[k] == trim(l2[ix2[k]])
            &&& d2[k].len() > 0
        } by {
            if k < ix.len() {
                assert(ix2[k] == ix[k]);
                assert(l2[ix[k]] == lines[ix[k]]);
            }
        }
        assert forall|l: int| 0 <= l < l2.len() && #[trigger] trim(l2[l]).len() > 0 implies ix2.contains(l) by {
            if l < lines.len() {
                assert(l2[l] == lines[l]);
                assert(ix.contains(l));
                let k = choose|k: int| 0 <= k < ix.len() && ix[k] == l;
                assert(ix2[k] == l);
            } else {
                assert(ix2[ix.len() as int] == l);
            }
        }
        assert forall|a: int, b: int| #![trigger ix2[a], ix2[b]] 0 <= a < b < ix2.len() implies ix2[a] < ix2[b] by {
            if b == ix.len() {
                assert(ix2[a] == ix[a]);
            } else {
                assert(ix2[a] == ix[a]);
                assert(ix2[b] == ix[b]);
            }
        }
    } else {
        assert forall|k: int| #![trigger ix[k]] 0 <= k < ix.len() implies {
            &&& 0 <= ix[k] < l2.len()
            &&& docs[k] == trim(l2[ix[k]])
            &&& docs[k].len() > 0
        } by {
            assert(l2[ix[k]] == lines[ix[k]]);
        }
        assert forall|l: int| 0 <= l < l2.len() && #[trigger] trim(l2[l]).len() > 0 implies ix.contains(l) by {
            if l < lines.len() {
                assert(l2[l] == lines[l]);
            }
        }
    }
}

proof fn lemma_trim_start_at(s: Seq<char>, a: int)
    requires
        0 <= a <= s.len(),
        forall|k: int| 0 <= k < a ==> is_white_space(#[trigger] s[k]),
        a < s.len() ==> !is_white_space(s[a]),
    ensures
        trim_start(s) == s.subrange(a, s.len() as int),
    decreases a,
{
    if a == 0 {
        assert(s.subrange(0, s.len() as int) =~= s);
    } else {
        assert forall|k: int| 0 <= k < a - 1 implies is_white_space(#[trigger] s.drop_first()[k]) by {
            assert(s.drop_first()[k] == s[k + 1]);
        }
        lemma_trim_start_at(s.drop_first(), a - 1);
        assert(s.drop_first().subrange(a - 1, s.len() - 1) =~= s.subrange(a, s.len() as int));
    }
}

proof fn lemma_trim_end_at(s: Seq<char>, b: int)
    requires
        0 <= b <= s.len(),
        forall|k: int| b <= k < s.len() ==> is_white_space(#[trigger] s[k]),
        b > 0 ==> !is_white_space(s[b - 1]),
    ensures
        trim_end(s) == s.subrange(0, b),
    decreases s.len() - b,
{
    if b == s.len() {
        assert(s.subrange(0, b) =~= s);
    } else {
        lemma_trim_end_at(s.drop_last(), b);
        assert(s.drop_last().subrange(0, b) =~= s.subrange(0, b));
    }
}

proof fn lemma_trim_start_index(s: Seq<char>) -> (a: int)
    ensures
        0 <= a <= s.len(),
        forall|k: int| 0 <= k < a ==> is_white_space(#[trigger] s[k]),
        a < s.len() ==> !is_white_space(s[a]),
        trim_start(s) == s.subrange(a, s.len() as int),
    decreases s.len(),
{
    if s.len() > 0 && is_white_space(s[0]) {
        let a1 = lemma_trim_start_index(s.drop_first());
        assert forall|k: int| 0 <= k < a1 + 1 implies is_white_space(#[trigger] s[k]) by {
            if k > 0 {
                assert(s[k] == s.drop_first()[k - 1]);
            }
        }
        assert(s.drop_first().subrange(a1, s.len() - 1) =~= s.subrange(a1 + 1, s.len() as int));
        a1 + 1
    } else {
        assert(s.subrange(0, s.len() as int) =~= s);
        0
    }
}

proof fn lemma_trim_end_index(s: Seq<char>) -> (b: int)
    ensures
        0 <= b <= s.len(),
        forall|k: int| b <= k < s.len() ==> is_white_space(#[trigger] s[k]),
        b > 0 ==> !is_white_space(s[b - 1]),
        trim_end(s) == s.subrange(0, b),
    decreases s.len(),
{
    if s.len() > 0 && is_white_space(s.last()) {
        let b1 = lemma_trim_end_index(s.drop_last());
        assert(s.drop_last().subrange(0, b1) =~= s.subrange(0, b1));
        assert forall|k: int| b1 <= k < s.len() implies is_white_space(#[trigger] s[k]) by {
            if k < s.len() - 1 {
                assert(s[k] == s.drop_last()[k]);
            }
        }
        b1
    } else {
        assert(s.subrange(0, s.len() as int) =~= s);
        s.len() as int
    }
}

/// What trimming does: the result is the stretch `s[a..b]` of `s`, with
/// only white space before `a` and from `b` on, and (when it is not empty)
/// no white space at either of its ends. Returns `(a, b)`.
pub proof fn lemma_trim_bounds(s: Seq<char>) -> (r: (int, int))
    ensures
        0 <= r.0 <= r.1 <= s.len(),
        trim(s) == s.subrange(r.0, r.1),
        forall|k: int| 0 <= k < r.0 ==> is_white_space(#[trigger] s[k]),
        forall|k: int| r.1 <= k < s.len() ==> is_white_space(#[trigger] s[k]),
        r.0 < r.1 ==> !is_white_space(s[r.0]) && !is_white_space(s[r.1 - 1]),
{
    let a = lemma_trim_start_index(s);
    let t = s.subrange(a, s.len() as int);
    let b1 = lemma_trim_end_index(t);
    let b = a + b1;
    assert(trim_start(s) == t);
    assert(trim(s) == trim_end(t));
    assert(t.subrange(0, b1) =~= s.subrange(a, b));
    assert forall|k: int| b <= k < s.len() implies is_white_space(#[trigger] s[k]) by {
        assert(s[k] == t[k - a]);
        assert(is_white_space(t[k - a]));
    }
    if a < b {
        assert(s[a] == t[0]);
        assert(s[b - 1] == t[b1 - 1]);
    }
    (a, b)
}

/// What splitting into lines does: there is at least one line, no line
/// holds a line feed, and the lines joined with line feeds give back the
/// text.
pub proof fn lemma_lines_of_join(text: Seq<char>)
    ensures
        lines_of(text).len() >= 1,
        forall|l: int|
            0 <= l < lines_of(text).len() ==> !(#[trigger] lines_of(text)[l]).contains('\n'),
        text == Seq::new(
            lines_of(text).len(),
            |l: int|
                if l < lines_of(text).len() - 1 {
                    lines_of(text)[l].push('\n')
                } else {
                    lines_of(text)[l]
                },
        ).flatten(),
    decreases text.len(),
{
    let lines = lines_of(text);
    let joined = |ls: Seq<Seq<char>>|
        Seq::new(
            ls.len(),
            |l: int|
                if l < ls.len() - 1 {
                    ls[l].push('\n')
                } else {
                    ls[l]
                },
        );
    if text.len() == 0 {
        assert(joined(lines) =~= seq![Seq::<char>::empty()]);
        joined(lines).lemma_flatten_one_element();
        assert(joined(lines).flatten() =~= text);
    } else {
        let p = text.drop_last();
        lemma_lines_of_join(p);
        let prev = lines_of(p);
        let c = text.last();
        let jp = joined(prev);
        let init = Seq::new(
            (prev.len() - 1) as nat,
            |l: int| prev[l].push('\n'),
        );
        assert(jp =~= init.push(prev.last()));
        init.lemma_flatten_push(prev.last());
        assert(p =~= init.flatten() + prev.last());
        if c == '\n' {
            assert(lines == prev.push(Seq::empty()));
            assert(joined(lines) =~= init.push(prev.last().push('\n')).push(Seq::empty()));
            init.lemma_flatten_push(prev.last().push('\n'));
            init.push(prev.last().push('\n')).lemma_flatten_push(Seq::empty());
            assert(joined(lines).flatten() == init.flatten() + prev.last().push('\n') + Seq::<
                char,
            >::empty());
            assert(init.flatten() + prev.last().push('\n') + Seq::<char>::empty() =~= p.push(
                '\n',
            ));
            assert(text =~= p.push(c));
            assert(joined(lines).flatten() =~= text);
            assert forall|l: int| 0 <= l < lines.len() implies !(#[trigger] lines[l]).contains('\n') by {
                if l < prev.len() {
                    assert(lines[l] == prev[l]);
                }
            }
        } else {
            assert(lines == prev.update(prev.len() - 1, prev.last().push(c)));
            assert(joined(lines) =~= init.push(prev.last().push(c)));
            init.lemma_flatten_push(prev.last().push(c));
            assert(joined(lines).flatten() == init.flatten() + prev.last().push(c));
            assert(init.flatten() + prev.last().push(c) =~= p.push(c));
            assert(text =~= p.push(c));
            assert(joined(lines).flatten() =~= text);
            assert forall|l: int| 0 <= l < lines.len() implies !(#[trigger] lines[l]).contains('\n') by {
                if l < prev.len() - 1 {
                    assert(lines[l] == prev[l]);
                } else {
                    assert(!prev[l].contains('\n'));
                    if lines[l].contains('\n') {
                        let k = choose|k: int| 0 <= k < lines[l].len() && lines[l][k] == '\n';
                        if k < prev[l].len() {
                            assert(prev[l][k] == '\n');
                        }
                    }
                }
            }
        }
    }
}

/// Whether `c` is Unicode white space.
pub fn is_white_space_char(c: char) -> (b: bool)
    ensures
        b == is_white_space(c),
{
    let v = c as u32;
    (0x9 <= v && v <= 0xD) || v == 0x20 || v == 0x85 || v == 0xA0 || v == 0x1680 || (0x2000 <= v
        && v <= 0x200A) || v == 0x2028 || v == 0x2029 || v == 0x202F || v == 0x205F || v == 0x3000
}

/// `line` without leading and trailing white space.
pub fn trim_line(line: &Vec<char>) -> (r: Vec<char>)
    ensures
        r@ == trim(line@),
{
    let n = line.len();
    let mut a: usize = 0;
    while a < n && is_white_space_char(line[a])
        invariant
            n == line@.len(),
            a <= n,
            forall|k: int| 0 <= k < a ==> is_white_space(#[trigger] line@[k]),
        decreases n - a,
    {
        a = a + 1;
    }
    proof {
        lemma_trim_start_at(line@, a as int);
    }
    let ghost t = line@.subrange(a as int, n as int);
    let mut b: usize = n;
    while b > a && is_white_space_char(line[b - 1])
        invariant
            n == line@.len(),
            a <= b <= n,
            forall|k: int| b <= k < n ==> is_white_space(#[trigger] line@[k]),
        decreases b - a,
    {
        b = b - 1;
    }
    proof {
        assert forall|k: int| b - a <= k < t.len() implies is_white_space(#[trigger] t[k]) by {
            assert(t[k] == line@[k + a]);
        }
        if b > a {
            assert(t[b - a - 1] == line@[b - 1]);
        }
        lemma_trim_end_at(t, (b - a) as int);
        assert(t.subrange(0, (b - a) as int) =~= line@.subrange(a as int, b as int));
    }
    let mut r: Vec<char> = Vec::new();
    let mut k: usize = a;
    while k < b
        invariant
            n == line@.len(),
            a <= k <= b <= n,
            r@ == line@.subrange(a as int, k as int),
        decreases b - k,
    {
        r.push(line[k]);
        assert(r@ =~= line@.subrange(a as int, k + 1));
        k = k + 1;
    }
    r
}

/// Splits a corpus into documents: one per line, trimmed, empty lines
/// dropped.
pub fn split_docs(text: &Vec<char>) -> (docs: Vec<Vec<char>>)
    ensures
        docs.deep_view() == corpus_docs(text@),
        exists|ix: Seq<int>| picks_nonblank_lines(lines_of(text@), docs.deep_view(), ix),
{
    let ghost tr = |l: Seq<char>| trim(l);
    let ghost ne = |d: Seq<char>| d.len() > 0;
    let mut docs: Vec<Vec<char>> = Vec::new();
    let mut cur: Vec<char> = Vec::new();
    let ghost mut ix: Seq<int> = Seq::empty();
    let n = text.len();
    proof {
        assert(picks_nonblank_lines(Seq::empty(), docs.deep_view(), ix));
        assert(text@.take(0) =~= Seq::<char>::empty());
        assert(lines_of(Seq::<char>::empty()).drop_last() =~= Seq::<Seq<char>>::empty());
        assert(docs.deep_view() =~= Seq::<Seq<char>>::empty().map_values(tr).filter(ne));
    }
    for i in 0..n
        invariant
            n == text@.len(),
            tr == (|l: Seq<char>| trim(l)),
            ne == (|d: Seq<char>| d.len() > 0),
            lines_of(text@.take(i as int)).len() >= 1,
            cur@ == lines_of(text@.take(i as int)).last(),
            docs.deep_view() == lines_of(text@.take(i as int)).drop_last().map_values(tr).filter(
                ne,
            ),
            picks_nonblank_lines(lines_of(text@.take(i as int)).drop_last(), docs.deep_view(), ix),
    {
        let ghost prev = lines_of(text@.take(i as int));
        let ghost dprev = docs.deep_view();
        assert(text@.take(i + 1).drop_last() =~= text@.take(i as int));
        assert(text@.take(i + 1).last() == text@[i as int]);
        let c = text[i];
        if c == '\n' {
            let t = trim_line(&cur);
            let ghost pre = prev.drop_last().map_values(tr);
            assert(prev.map_values(tr) =~= pre.push(trim(cur@)));
            proof {
                pre.lemma_filter_push(trim(cur@), ne);
            }
            proof {
                lemma_picks_push(prev.drop_last(), dprev, ix, cur@);
                assert(prev.drop_last().push(cur@) =~= prev);
            }
            if t.len() > 0 {
                let ghost tv = t.deep_view();
                assert(tv =~= t@);
                proof {
                    ix = ix.push(prev.drop_last().len() as int);
                }
                docs.push(t);
                assert(docs.deep_view() =~= dprev.push(tv));
            }
            cur = Vec::new();
            assert(lines_of(text@.take(i + 1)) == prev.push(Seq::empty()));
            assert(lines_of(text@.take(i + 1)).drop_last() =~= prev);
            assert(cur@ =~= lines_of(text@.take(i + 1)).last());
        } else {
            cur.push(c);
            assert(lines_of(text@.take(i + 1)) == prev.update(prev.len() - 1, prev.last().push(c)));
            assert(lines_of(text@.take(i + 1)).drop_last() =~= prev.drop_last());
            assert(cur@ =~= lines_of(text@.take(i + 1)).last());
        }
    }
    let t = trim_line(&cur);
    let ghost all = lines_of(text@);
    let ghost dprev = docs.deep_view();
    proof {
        assert(text@.take(n as int) =~= text@);
        assert(all =~= all.drop_last().push(all.last()));
        assert(all.map_values(tr) =~= all.drop_last().map_values(tr).push(trim(cur@)));
        all.drop_last().map_values(tr).lemma_filter_push(trim(cur@), ne);
    }
    proof {
        lemma_picks_push(all.drop_last(), dprev, ix, cur@);
    }
    if t.len() > 0 {
        let ghost tv = t.deep_view();
        assert(tv =~= t@);
        proof {
            ix = ix.push(all.drop_last().len() as int);
        }
        docs.push(t);
        assert(docs.deep_view() =~= dprev.push(tv));
    }
    assert(picks_nonblank_lines(lines_of(text@), docs.deep_view(), ix));
    docs
}

} // verus!
