use vstd::prelude::*;

verus! {

/// How a document's text is turned into the items that are min-hashed.
#[derive(Clone, Copy, PartialEq, Eq, Structural, Debug)]
pub enum Tokenization {
    /// Lowercase, split, then hash each token to an integer below 2^20,
    /// emulating a hashing-vectorizer fingerprint.
    Vectorizer,
    /// Lowercase the text and split it into words.
    Whitespace,
    /// Non-overlapping character windows over the raw text.
    Char,
}

/// What `str::to_lowercase` returns for the given characters.
pub uninterp spec fn lower_of(s: Seq<char>) -> Seq<char>;

/// ASCII whitespace or ASCII punctuation: what the word splitter
/// separates on.
pub open spec fn is_word_sep(c: char) -> bool {
    let n = c as u32;
    ||| n == 32
    ||| n == 9
    ||| n == 10
    ||| n == 12
    ||| n == 13
    ||| 33 <= n <= 47
    ||| 58 <= n <= 64
    ||| 91 <= n <= 96
    ||| 123 <= n <= 126
}

/// Index of the first separator character at or after `i` (or the end).
pub open spec fn word_end(s: Seq<char>, i: int) -> int
    decreases s.len() - i,
{
    if i < s.len() && !is_word_sep(s[i]) {
        word_end(s, i + 1)
    } else {
        i
    }
}

/// `word_end` stays within the text.
pub proof fn lemma_word_end(s: Seq<char>, i: int)
    requires
        0 <= i <= s.len(),
    ensures
        i <= word_end(s, i) <= s.len(),
    decreases s.len() - i,
{
    if i < s.len() && !is_word_sep(s[i]) {
        lemma_word_end(s, i + 1);
    }
}

/// The words of the text from position `i` on: maximal runs of
/// characters that are neither ASCII whitespace nor ASCII punctuation.
pub open spec fn words_from(s: Seq<char>, i: int) -> Seq<Seq<char>>
    decreases s.len() - i,
    when 0 <= i <= s.len()
{
    if i >= s.len() {
        seq![]
    } else if is_word_sep(s[i]) {
        words_from(s, i + 1)
    } else {
        proof {
            lemma_word_end(s, i + 1);
            assert(word_end(s, i) == word_end(s, i + 1));
        }
        seq![s.subrange(i, word_end(s, i))] + words_from(s, word_end(s, i))
    }
}

/// What `gaoya::text::whitespace_split` returns: the text's words, split
/// on ASCII whitespace and ASCII punctuation, empty fields dropped.
pub open spec fn ws_tokens_of(s: Seq<char>) -> Seq<Seq<char>> {
    words_from(s, 0)
}

/// What `shingles::Shingles::new_with_step(s, w, w)` yields: the complete
/// character windows of length `w` at offsets `0, w, 2w, ...`; a trailing
/// window of fewer than `w` characters is dropped.
pub open spec fn char_shingles_of(s: Seq<char>, w: nat) -> Seq<Seq<char>>
    decreases s.len(),
    when w >= 1
{
    if s.len() < w {
        seq![]
    } else {
        seq![s.take(w as int)] + char_shingles_of(s.skip(w as int), w)
    }
}

/// What `seahash::hash_seeded` returns for the UTF-8 bytes of the
/// characters `s` under the four seed words.
pub uninterp spec fn seahash_of(s: Seq<char>, k1: u64, k2: u64, k3: u64, k4: u64) -> u64;

/// What `gaoya::minhash::MinHasher32::<FnvBuildHasher>::new(p)`'s
/// `create_signature` returns for a stream of string tokens. The hasher's
/// permutations are drawn from a fixed seed, so the signature is a
/// function of the permutation count and the tokens alone.
pub uninterp spec fn minhash_tokens(p: nat, tokens: Seq<Seq<char>>) -> Seq<u32>;

/// The same for a stream of 32-bit integer items.
pub uninterp spec fn minhash_ints(p: nat, items: Seq<i32>) -> Seq<u32>;

/// Relies on `str::to_lowercase`: the result depends on the characters
/// alone, and no characters leave an empty string.
#[verifier::external_body]
fn lowercase(s: &str) -> (r: String)
    ensures
        r@ == lower_of(s@),
        s@.len() == 0 ==> r@.len() == 0,
{
    s.to_lowercase()
}

/// Relies on `gaoya::text::whitespace_split`: it splits exactly on the
/// characters of `is_word_sep` and drops empty fields, so it returns
/// `ws_tokens_of` of the text.
#[verifier::external_body]
fn split_tokens(s: &str) -> (r: Vec<String>)
    ensures
        r@.map_values(|t: String| t@) == ws_tokens_of(s@),
{
    gaoya::text::whitespace_split(s).map(|t| t.to_string()).collect()
}

/// Relies on `shingles::Shingles::new_with_step(s, w, w)` over `str`: it
/// yields exactly the full stride-`w` character windows of
/// `char_shingles_of`. A window size of zero would make the iterator
/// yield empty windows forever.
#[verifier::external_body]
fn char_shingles(s: &str, w: usize) -> (r: Vec<String>)
    requires
        w >= 1,
    ensures
        r@.map_values(|t: String| t@) == char_shingles_of(s@, w as nat),
{
    shingles::Shingles::new_with_step(s, w, w).map(|t| t.to_string()).collect()
}

/// Relies on `seahash::hash_seeded` over the token's UTF-8 bytes: a pure
/// function of the bytes and the four seed words.
#[verifier::external_body]
fn seeded_hash(s: &str, k1: u64, k2: u64, k3: u64, k4: u64) -> (r: u64)
    ensures
        r == seahash_of(s@, k1, k2, k3, k4),
{
    seahash::hash_seeded(s.as_bytes(), k1, k2, k3, k4)
}

/// Relies on `gaoya::minhash::MinHasher32::<FnvBuildHasher>::new(p)` and
/// its `create_signature`: `new` seeds its permutations from a constant,
/// so the signature depends on `p` and the tokens alone; it has one entry
/// per permutation, and an empty token stream gives all zeroes.
#[verifier::external_body]
fn signature_of_tokens(p: usize, tokens: &Vec<String>) -> (r: Vec<u32>)
    ensures
        r@ == minhash_tokens(p as nat, tokens@.map_values(|t: String| t@)),
        r@.len() == p,
        tokens@.len() == 0 ==> r@ == Seq::new(p as nat, |i: int| 0u32),
{
    let hasher = gaoya::minhash::MinHasher32::new(p);
    gaoya::minhash::MinHasher::create_signature(&hasher, tokens.iter().map(|t| t.as_str()))
}

/// The same reliance for a stream of 32-bit integer items.
#[verifier::external_body]
fn signature_of_ints(p: usize, items: &Vec<i32>) -> (r: Vec<u32>)
    ensures
        r@ == minhash_ints(p as nat, items@),
        r@.len() == p,
        items@.len() == 0 ==> r@ == Seq::new(p as nat, |i: int| 0u32),
{
    let hasher = gaoya::minhash::MinHasher32::new(p);
    gaoya::minhash::MinHasher::create_signature(&hasher, items.iter().copied())
}

/// One token's vectorizer index: its seeded 64-bit hash reduced modulo 2^20.
pub open spec fn hv_index(t: Seq<char>) -> i32 {
    (seahash_of(t, 1, 1000, 200, 89) % 1048576) as i32
}

/// The integer stream that the vectorizer mode feeds to the min-hasher.
pub open spec fn hv_indices(tokens: Seq<Seq<char>>) -> Seq<i32> {
    tokens.map_values(|t: Seq<char>| hv_index(t))
}

/// The signature a processor with the given parameters produces for `text`.
pub open spec fn signature_spec(
    p: nat,
    mode: Tokenization,
    window_size: nat,
    text: Seq<char>,
) -> Seq<u32> {
    match mode {
        Tokenization::Vectorizer => minhash_ints(p, hv_indices(ws_tokens_of(lower_of(text)))),
        Tokenization::Whitespace => minhash_tokens(p, ws_tokens_of(lower_of(text))),
        Tokenization::Char => minhash_tokens(p, char_shingles_of(text, window_size)),
    }
}

/// Produces the MinHash signature of a document's text: a vector of
/// `permutations` 32-bit minima, deterministic in the text and the
/// configuration.
pub struct MinHashProcessor {
    pub permutations: usize,
    pub tokenization: Tokenization,
    pub window_size: usize,
}

impl MinHashProcessor {
    /// The window size is only consulted in `Char` mode, where an empty
    /// window would be meaningless.
    pub open spec fn wf(&self) -> bool {
        self.tokenization is Char ==> self.window_size >= 1
    }

    pub fn new(permutations: usize, tokenization: Tokenization, window_size: usize) -> (r:
        MinHashProcessor)
        requires
            tokenization is Char ==> window_size >= 1,
        ensures
            r.permutations == permutations,
            r.tokenization == tokenization,
            r.window_size == window_size,
            r.wf(),
    {
        MinHashProcessor { permutations, tokenization, window_size }
    }

    /// The signature of `text` under the configured tokenizer: exactly
    /// `signature_spec` of the processor's parameters.
    pub fn create_signature(&self, text: &str) -> (r: Vec<u32>)
        requires
            self.wf(),
        ensures
            r@ == signature_spec(
                self.permutations as nat,
                self.tokenization,
                self.window_size as nat,
                text@,
            ),
            r@.len() == self.permutations,
    {
        match self.tokenization {
            Tokenization::Vectorizer => {
                let lowered = lowercase(text);
                let tokens = split_tokens(lowered.as_str());
                let ghost tokv = tokens@.map_values(|t: String| t@);
                let mut indices: Vec<i32> = Vec::new();
                let mut k: usize = 0;
                let m = tokens.len();
                while k < m
                    invariant
                        0 <= k <= m,
                        m == tokens@.len(),
                        m == tokv.len(),
                        tokv == tokens@.map_values(|t: String| t@),
                        indices@ == hv_indices(tokv).take(k as int),
                    decreases m - k,
                {
                    let h = seeded_hash(tokens[k].as_str(), 1, 1000, 200, 89);
                    let idx = (h % 1048576) as i32;
                    indices.push(idx);
                    proof {
                        assert(tokv[k as int] == tokens@[k as int]@);
                        assert(hv_indices(tokv)[k as int] == hv_index(tokv[k as int]));
                        assert(indices@ =~= hv_indices(tokv).take(k + 1));
                    }
                    k = k + 1;
                }
                proof {
                    assert(hv_indices(tokv).take(m as int) =~= hv_indices(tokv));
                }
                signature_of_ints(self.permutations, &indices)
            },
            Tokenization::Whitespace => {
                let lowered = lowercase(text);
                let tokens = split_tokens(lowered.as_str());
                signature_of_tokens(self.permutations, &tokens)
            },
            Tokenization::Char => {
                let shingled = char_shingles(text, self.window_size);
                signature_of_tokens(self.permutations, &shingled)
            },
        }
    }
}

} // verus!
