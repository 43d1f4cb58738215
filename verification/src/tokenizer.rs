use vstd::prelude::*;

verus! {

broadcast use vstd::seq_lib::group_seq_properties;

/// Token id of the beginning-of-sequence marker.
pub const BOS: usize = 0;

/// Token id of the end-of-sequence marker.
pub const EOS: usize = 1;

/// What a token id stands for.
#[derive(PartialEq, Eq, Structural, Clone, Copy, Debug)]
pub enum Token {
    Bos,
    Eos,
    Char(char),
}

/// The characters of `s` are in strictly increasing code-point order.
pub open spec fn strictly_sorted(s: Seq<char>) -> bool {
    forall|i: int, j: int| 0 <= i < j < s.len() ==> (s[i] as u32) < (s[j] as u32)
}

/// Every character occurring in some document.
pub open spec fn doc_chars(docs: Seq<Seq<char>>) -> Set<char> {
    Set::new(|c: char| exists|i: int| 0 <= i < docs.len() && #[trigger] docs[i].contains(c))
}

/// `c` occurs in some document.
pub open spec fn occurs_in(docs: Seq<Seq<char>>, c: char) -> bool {
    exists|i: int, k: int| 0 <= i < docs.len() && 0 <= k < docs[i].len() && docs[i][k] == c
}

/// A strictly sorted sequence of characters holds at most one entry per
/// code point, so its length stays below `0x110001`.
proof fn lemma_sorted_len_bound(s: Seq<char>)
    requires
        strictly_sorted(s),
    ensures
        s.len() <= 0x110000,
{
    if s.len() > 0 {
        let n = s.len() - 1;
        assert forall|i: int| 0 <= i < s.len() implies (s[i] as u32) >= i by {
            lemma_sorted_at_least_index(s, i);
        }
        assert((s[n] as u32) >= n);
        vstd::utf8::char_is_scalar(s[n]);
        assert((s[n] as u32) <= 0x10FFFF);
    }
}

proof fn lemma_sorted_at_least_index(s: Seq<char>, i: int)
    requires
        strictly_sorted(s),
        0 <= i < s.len(),
    ensures
        (s[i] as u32) >= i,
    decreases i,
{
    if i > 0 {
        lemma_sorted_at_least_index(s, i - 1);
    } else {
        vstd::utf8::char_is_scalar(s[i]);
    }
}

/// A character-level tokenizer: the markers `<BOS>` (id 0) and `<EOS>`
/// (id 1), then one id per character of the vocabulary, in code-point order.
pub struct Tokenizer {
    chars: Vec<char>,
}

impl Tokenizer {
    /// The vocabulary's characters, in increasing order.
    pub closed spec fn chars(&self) -> Seq<char> {
        self.chars@
    }

    /// The vocabulary is strictly sorted.
    pub closed spec fn wf(&self) -> bool {
        strictly_sorted(self.chars@)
    }

    /// The id of character `c` (meaningful when `c` is in the vocabulary).
    pub open spec fn char_id(&self, c: char) -> int {
        self.chars().index_of(c) + 2
    }

    /// What the id `id` stands for (meaningful below the vocabulary size).
    pub open spec fn token_at(&self, id: int) -> Token {
        if id == 0 {
            Token::Bos
        } else if id == 1 {
            Token::Eos
        } else {
            Token::Char(self.chars()[id - 2])
        }
    }

    /// The token ids of a document: `<BOS>`, its characters, `<EOS>`.
    pub open spec fn doc_tokens(&self, doc: Seq<char>) -> Seq<usize> {
        seq![BOS] + doc.map_values(|c: char| self.char_id(c) as usize) + seq![EOS]
    }

    /// The vocabulary of the given documents: every character that occurs
    /// in them, once, in increasing order.
    pub fn from_docs(docs: &Vec<Vec<char>>) -> (t: Tokenizer)
        ensures
            t.wf(),
            t.chars().to_set() == doc_chars(docs.deep_view()),
            forall|i: int, k: int|
                0 <= i < docs@.len() && 0 <= k < docs@[i]@.len() ==> t.chars().contains(
                    #[trigger] docs@[i]@[k],
                ),
            forall|j: int|
                0 <= j < t.chars().len() ==> #[trigger] occurs_in(docs.deep_view(), t.chars()[j]),
            forall|i: int, j: int|
                #![trigger t.chars()[i], t.chars()[j]]
                0 <= i < j < t.chars().len() ==> (t.chars()[i] as u32) < (t.chars()[j] as u32),
    {
        let mut chars: Vec<char> = Vec::new();
        let n = docs.len();
        for d in 0..n
            invariant
                n == docs@.len(),
                strictly_sorted(chars@),
                chars@.to_set() == doc_chars(docs.deep_view().take(d as int)),
        {
            let doc = &docs[d];
            let m = doc.len();
            for k in 0..m
                invariant
                    m == doc@.len(),
                    doc@ == docs.deep_view()[d as int],
                    d < n,
                    n == docs@.len(),
                    strictly_sorted(chars@),
                    chars@.to_set() == doc_chars(docs.deep_view().take(d as int)).union(
                        doc@.take(k as int).to_set(),
                    ),
            {
                insert_sorted(&mut chars, doc[k]);
                assert(doc@.take(k + 1) =~= doc@.take(k as int).push(doc@[k as int]));
                assert(chars@.to_set() =~= doc_chars(docs.deep_view().take(d as int)).union(
                    doc@.take(k + 1).to_set(),
                ));
            }
            proof {
                let dv = docs.deep_view();
                assert(doc@.take(m as int) =~= doc@);
                assert(dv.take(d + 1) =~= dv.take(d as int).push(dv[d as int]));
                assert forall|c: char| doc_chars(dv.take(d + 1)).contains(c) == doc_chars(
                    dv.take(d as int),
                ).union(doc@.to_set()).contains(c) by {
                    if doc_chars(dv.take(d + 1)).contains(c) {
                        let i = choose|i: int|
                            0 <= i < dv.take(d + 1).len() && #[trigger] dv.take(d + 1)[i].contains(c);
                        if i < d {
                            assert(dv.take(d as int)[i].contains(c));
                        }
                    }
                    if doc@.to_set().contains(c) {
                        assert(dv.take(d + 1)[d as int].contains(c));
                    }
                    if doc_chars(dv.take(d as int)).contains(c) {
                        let i = choose|i: int|
                            0 <= i < dv.take(d as int).len() && #[trigger] dv.take(d as int)[i].contains(c);
                        assert(dv.take(d + 1)[i].contains(c));
                    }
                }
                assert(chars@.to_set() =~= doc_chars(dv.take(d + 1)));
            }
        }
        assert(docs.deep_view().take(n as int) =~= docs.deep_view());
        proof {
            let dv = docs.deep_view();
            assert forall|i: int| 0 <= i < docs@.len() implies #[trigger] dv[i] == docs@[i]@ by {
                assert(dv[i] =~= docs@[i]@);
            }
            assert forall|i: int, k: int|
                0 <= i < docs@.len() && 0 <= k < docs@[i]@.len() implies chars@.contains(
                #[trigger] docs@[i]@[k],
            ) by {
                assert(dv[i] == docs@[i]@);
                assert(dv[i].contains(docs@[i]@[k]));
                assert(doc_chars(dv).contains(docs@[i]@[k]));
                assert(chars@.to_set().contains(docs@[i]@[k]));
            }
        }
        let ghost cs = chars@;
        let t = Tokenizer { chars };
        assert(t.chars() == cs);
        assert forall|j: int| 0 <= j < t.chars().len() implies #[trigger] occurs_in(
            docs.deep_view(),
            t.chars()[j],
        ) by {
            let dv = docs.deep_view();
            assert(cs[j] == t.chars()[j]);
            assert(cs.to_set().contains(cs[j]));
            assert(doc_chars(dv).contains(cs[j]));
            let i = choose|i: int| 0 <= i < dv.len() && #[trigger] dv[i].contains(cs[j]);
            let k = choose|k: int| 0 <= k < dv[i].len() && dv[i][k] == cs[j];
            assert(dv[i][k] == t.chars()[j]);
        }
        assert forall|i: int, j: int|
            #![trigger t.chars()[i], t.chars()[j]]
            0 <= i < j < t.chars().len() implies (t.chars()[i] as u32) < (t.chars()[j] as u32) by {
            assert(strictly_sorted(cs));
            assert((cs[i] as u32) < (cs[j] as u32));
        }
        t
    }

    /// The number of token ids: the two markers plus one per character.
    pub fn vocab_size(&self) -> (n: usize)
        requires
            self.wf(),
        ensures
            n == self.chars().len() + 2,
    {
        proof {
            lemma_sorted_len_bound(self.chars@);
        }
        self.chars.len() + 2
    }

    /// The position of `c` in the vocabulary, by binary search.
    fn position(&self, c: char) -> (r: Option<usize>)
        requires
            self.wf(),
        ensures
            match r {
                Some(i) => i < self.chars@.len() && self.chars@[i as int] == c,
                None => !self.chars@.contains(c),
            },
    {
        let mut lo: usize = 0;
        let mut hi: usize = self.chars.len();
        while lo < hi
            invariant
                self.wf(),
                lo <= hi <= self.chars@.len(),
                forall|k: int| 0 <= k < lo ==> (self.chars@[k] as u32) < (c as u32),
                forall|k: int| hi <= k < self.chars@.len() ==> (c as u32) < (self.chars@[k] as u32),
            decreases hi - lo,
        {
            let mid = lo + (hi - lo) / 2;
            let m = self.chars[mid] as u32;
            if m == (c as u32) {
                proof {
                    vstd::utf8::char_u32_cast(self.chars@[mid as int], c as u32);
                    vstd::utf8::char_u32_cast(c, c as u32);
                }
                return Some(mid);
            } else if m < (c as u32) {
                lo = mid + 1;
            } else {
                hi = mid;
            }
        }
        proof {
            if self.chars@.contains(c) {
                let k = choose|k: int| 0 <= k < self.chars@.len() && self.chars@[k] == c;
                assert((self.chars@[k] as u32) == (c as u32));
            }
        }
        None
    }

    /// The id of the character `c`, or `None` when `c` is not in the
    /// vocabulary.
    pub fn token_id(&self, c: char) -> (r: Option<usize>)
        requires
            self.wf(),
        ensures
            r == (if self.chars().contains(c) {
                Some(self.char_id(c) as usize)
            } else {
                None::<usize>
            }),
            r matches Some(id) ==> 2 <= id < self.chars().len() + 2,
    {
        proof {
            lemma_sorted_len_bound(self.chars@);
        }
        match self.position(c) {
            Some(i) => {
                proof {
                    self.lemma_index_of_char(c, i as int);
                }
                Some(i + 2)
            },
            None => None,
        }
    }

    /// In a strictly sorted vocabulary the index of a character is its only
    /// position.
    proof fn lemma_index_of_char(&self, c: char, i: int)
        requires
            self.wf(),
            0 <= i < self.chars@.len(),
            self.chars@[i] == c,
        ensures
            self.chars@.index_of(c) == i,
    {
        assert(self.chars@.contains(c));
        let j = self.chars@.index_of(c);
        assert(self.chars@[j] == c);
        if j < i {
            assert((self.chars@[j] as u32) < (self.chars@[i] as u32));
        } else if j > i {
            assert((self.chars@[i] as u32) < (self.chars@[j] as u32));
        }
    }

    /// Whether every character of `doc` is in the vocabulary.
    pub fn covers(&self, doc: &Vec<char>) -> (b: bool)
        requires
            self.wf(),
        ensures
            b == (forall|k: int| 0 <= k < doc@.len() ==> self.chars().contains(#[trigger] doc@[k])),
    {
        let n = doc.len();
        for k in 0..n
            invariant
                n == doc@.len(),
                self.wf(),
                forall|j: int| 0 <= j < k ==> self.chars().contains(#[trigger] doc@[j]),
        {
            if self.position(doc[k]).is_none() {
                return false;
            }
        }
        true
    }

    /// The first `block_size` token ids of `doc`: `<BOS>`, the ids of its
    /// characters, then `<EOS>`, cut to at most `block_size` ids.
    pub fn encode(&self, doc: &Vec<char>, block_size: usize) -> (r: Vec<usize>)
        requires
            self.wf(),
            forall|k: int| 0 <= k < doc@.len() ==> self.chars().contains(#[trigger] doc@[k]),
        ensures
            r@ == (if block_size < self.doc_tokens(doc@).len() {
                self.doc_tokens(doc@).take(block_size as int)
            } else {
                self.doc_tokens(doc@)
            }),
    {
        let ghost full = self.doc_tokens(doc@);
        let mut out: Vec<usize> = Vec::new();
        if block_size == 0 {
            assert(full.take(0) =~= out@);
            return out;
        }
        out.push(BOS);
        let n = doc.len();
        let mut k: usize = 0;
        while k < n && out.len() < block_size
            invariant
                self.wf(),
                n == doc@.len(),
                full == self.doc_tokens(doc@),
                forall|j: int| 0 <= j < doc@.len() ==> self.chars().contains(#[trigger] doc@[j]),
                k <= n,
                out@.len() == k + 1,
                out@.len() <= block_size,
                out@ == full.take(k + 1),
            decreases n - k,
        {
            let id = self.token_id(doc[k]);
            let t = id.unwrap();
            out.push(t);
            assert(full[k + 1] == t);
            assert(out@ =~= full.take(k + 2));
            k = k + 1;
        }
        if out.len() < block_size {
            out.push(EOS);
            assert(out@ =~= full);
        } else if k < n {
            assert(block_size < full.len());
        } else {
            assert(out@.len() == block_size);
            assert(block_size < full.len());
        }
        out
    }

    /// What the token id `id` stands for.
    pub fn decode(&self, id: usize) -> (t: Token)
        requires
            self.wf(),
            id < self.chars().len() + 2,
        ensures
            t == self.token_at(id as int),
    {
        if id == BOS {
            Token::Bos
        } else if id == EOS {
            Token::Eos
        } else {
            Token::Char(self.chars[id - 2])
        }
    }

    /// Decoding undoes encoding: the id of a vocabulary character is a
    /// character id (at least 2, below the vocabulary size) that decodes
    /// back to that character, and distinct characters get distinct ids.
    pub proof fn lemma_decode_encode(&self, c: char, d: char)
        requires
            self.wf(),
            self.chars().contains(c),
            self.chars().contains(d),
        ensures
            2 <= self.char_id(c) < self.chars().len() + 2,
            self.token_at(self.char_id(c)) == Token::Char(c),
            c != d ==> self.char_id(c) != self.char_id(d),
    {
        let i = self.chars@.index_of(c);
        assert(self.chars@[i] == c);
        let j = self.chars@.index_of(d);
        assert(self.chars@[j] == d);
    }

    /// Decoding the token ids of a document gives back `<BOS>`, the
    /// document's characters in order, and `<EOS>`.
    pub proof fn lemma_doc_tokens_round_trip(&self, doc: Seq<char>)
        requires
            self.wf(),
            forall|k: int| 0 <= k < doc.len() ==> self.chars().contains(#[trigger] doc[k]),
        ensures
            self.doc_tokens(doc).len() == doc.len() + 2,
            self.token_at(self.doc_tokens(doc)[0] as int) == Token::Bos,
            self.token_at(self.doc_tokens(doc)[doc.len() as int + 1] as int) == Token::Eos,
            forall|k: int|
                0 <= k < doc.len() ==> self.token_at(#[trigger] self.doc_tokens(doc)[k + 1] as int)
                    == Token::Char(doc[k]),
    {
        lemma_sorted_len_bound(self.chars@);
        assert forall|k: int| 0 <= k < doc.len() implies self.token_at(
            #[trigger] self.doc_tokens(doc)[k + 1] as int,
        ) == Token::Char(doc[k]) by {
            self.lemma_decode_encode(doc[k], doc[k]);
            assert(self.doc_tokens(doc)[k + 1] == self.char_id(doc[k]) as usize);
        }
    }
}

/// Inserts `c` into a strictly sorted vector of characters, keeping it
/// strictly sorted (no effect when `c` is already present).
fn insert_sorted(chars: &mut Vec<char>, c: char)
    requires
        strictly_sorted(old(chars)@),
    ensures
        strictly_sorted(final(chars)@),
        final(chars)@.to_set() == old(chars)@.to_set().insert(c),
{
    let n = chars.len();
    let mut i: usize = 0;
    while i < n && (chars[i] as u32) < (c as u32)
        invariant
            n == chars@.len(),
            chars@ == old(chars)@,
            i <= n,
            forall|k: int| 0 <= k < i ==> (chars@[k] as u32) < (c as u32),
        decreases n - i,
    {
        i = i + 1;
    }
    if i < n && (chars[i] as u32) == (c as u32) {
        proof {
            vstd::utf8::char_u32_cast(chars@[i as int], c as u32);
            vstd::utf8::char_u32_cast(c, c as u32);
        }
        assert(chars@[i as int] == c);
        assert(chars@.to_set() =~= old(chars)@.to_set().insert(c));
        return;
    }
    chars.insert(i, c);
    assert(chars@.to_set() =~= old(chars)@.to_set().insert(c)) by {
        assert forall|x: char| chars@.to_set().contains(x) == old(chars)@.to_set().insert(c).contains(
            x,
        ) by {
            if old(chars)@.contains(x) {
                let k = choose|k: int| 0 <= k < n && old(chars)@[k] == x;
                if k < i {
                    assert(chars@[k] == x);
                } else {
                    assert(chars@[k + 1] == x);
                }
            }
            if chars@.contains(x) {
                let k = choose|k: int| 0 <= k < chars@.len() && chars@[k] == x;
                if k < i {
                    assert(old(chars)@[k] == x);
                } else if k > i {
                    assert(old(chars)@[k - 1] == x);
                }
            }
        }
    }
}

} // verus!
