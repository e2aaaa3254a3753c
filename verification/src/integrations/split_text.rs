//! Text splitting for staggered character/word animation.
//!
//! `SplitText` splits a string into characters and words with index metadata.
//! A word is a maximal run of characters that are not Unicode white space;
//! every character of the text, white space included, is kept in `chars`.
use vstd::prelude::*;

verus! {

/// The Unicode `White_Space` property (PropList.txt): U+0009..U+000D, U+0020,
/// U+0085, U+00A0, U+1680, U+2000..U+200A, U+2028, U+2029, U+202F, U+205F
/// and U+3000.
pub open spec fn is_white_space(c: char) -> bool {
    let u = c as u32;
    ||| 0x09 <= u <= 0x0D
    ||| u == 0x20
    ||| u == 0x85
    ||| u == 0xA0
    ||| u == 0x1680
    ||| 0x2000 <= u <= 0x200A
    ||| u == 0x2028
    ||| u == 0x2029
    ||| u == 0x202F
    ||| u == 0x205F
    ||| u == 0x3000
}

/// The white-space characters are exactly the twenty-five code points of the
/// Unicode `White_Space` property, and no printable ASCII character other than
/// the space (apostrophes, commas, periods, hyphens, letters, digits) is one,
/// so such characters always belong to words.
pub proof fn lemma_white_space_code_points(c: char)
    ensures
        is_white_space(c) <==> set![
            0x09u32, 0x0Au32, 0x0Bu32, 0x0Cu32, 0x0Du32, 0x20u32, 0x85u32, 0xA0u32, 0x1680u32,
            0x2000u32, 0x2001u32, 0x2002u32, 0x2003u32, 0x2004u32, 0x2005u32, 0x2006u32,
            0x2007u32, 0x2008u32, 0x2009u32, 0x200Au32, 0x2028u32, 0x2029u32, 0x202Fu32,
            0x205Fu32, 0x3000u32,
        ].contains(c as u32),
        0x21 <= c as u32 <= 0x7E ==> !is_white_space(c),
        (c as u32) < 0x09 ==> !is_white_space(c),
        0x0E <= c as u32 <= 0x1F ==> !is_white_space(c),
        0x3000 < c as u32 ==> !is_white_space(c),
{
}

/// Whether `c` has the Unicode `White_Space` property, as std's
/// `char::is_whitespace` documents it.
fn char_is_whitespace(c: char) -> (r: bool)
    ensures
        r == is_white_space(c),
{
    let u = c as u32;
    (0x09 <= u && u <= 0x0D) || u == 0x20 || u == 0x85 || u == 0xA0 || u == 0x1680 || (0x2000
        <= u && u <= 0x200A) || u == 0x2028 || u == 0x2029 || u == 0x202F || u == 0x205F || u
        == 0x3000
}

/// Position `i` of `s` holds a character that belongs to a word.
pub open spec fn is_word_char(s: Seq<char>, i: int) -> bool {
    0 <= i < s.len() && !is_white_space(s[i])
}

/// A word begins at `i`: a word character not preceded by one.
pub open spec fn starts_word(s: Seq<char>, i: int) -> bool {
    is_word_char(s, i) && !is_word_char(s, i - 1)
}

/// A word ends just before `j`: `j - 1` is a word character and `j` is not.
pub open spec fn ends_word(s: Seq<char>, j: int) -> bool {
    is_word_char(s, j - 1) && !is_word_char(s, j)
}

/// `spans` lists the words of `s` in order, as half-open character ranges:
/// each span is a maximal run of word characters, the spans are increasing
/// and every word of `s` is among them.
pub open spec fn is_word_spans(s: Seq<char>, spans: Seq<(int, int)>) -> bool {
    &&& forall|k: int|
        0 <= k < spans.len() ==> {
            &&& #[trigger] starts_word(s, spans[k].0)
            &&& spans[k].0 < spans[k].1
            &&& ends_word(s, spans[k].1)
            &&& forall|p: int| spans[k].0 <= p < spans[k].1 ==> is_word_char(s, p)
        }
    &&& forall|k: int| 0 <= k < spans.len() - 1 ==> #[trigger] spans[k].1 < spans[k + 1].0
    &&& forall|p: int| #[trigger]
        starts_word(s, p) ==> exists|k: int| 0 <= k < spans.len() && spans[k].0 == p
}

/// The word a character at position `i` is attributed to, given the
/// increasing start positions of the words: the last word that starts at or
/// before `i`, or word 0 when no word starts that early.
pub open spec fn attributed_word(starts: Seq<int>, i: int, w: int) -> bool {
    &&& (starts.len() == 0 || i < starts[0]) ==> w == 0
    &&& forall|k: int|
        0 <= k < starts.len() && #[trigger] starts[k] <= i && (k + 1 == starts.len() || i
            < starts[k + 1]) ==> w == k
}

/// A single character with index metadata.
#[derive(Debug, Clone)]
pub struct SplitChar {
    /// The character.
    pub ch: char,
    /// Index within the full text (character position).
    pub index: usize,
    /// Which word this character belongs to.
    pub word_index: usize,
}

/// A single word.
#[derive(Debug, Clone)]
pub struct SplitWord {
    /// The word text.
    pub text: String,
    /// Word index (0-based).
    pub index: usize,
    /// First character index in the full text.
    pub char_start: usize,
    /// Exclusive end character index.
    pub char_end: usize,
}

/// The character range of a word.
pub open spec fn word_span(w: SplitWord) -> (int, int) {
    (w.char_start as int, w.char_end as int)
}

/// The start positions of the words.
pub open spec fn word_starts(words: Seq<SplitWord>) -> Seq<int> {
    words.map_values(|w: SplitWord| w.char_start as int)
}

/// `chars` and `words` are the split of the text `s`.
pub open spec fn is_split_of(s: Seq<char>, chars: Seq<SplitChar>, words: Seq<SplitWord>) -> bool {
    let spans = words.map_values(|w: SplitWord| word_span(w));
    &&& is_word_spans(s, spans)
    &&& forall|k: int|
        0 <= k < words.len() ==> {
            &&& #[trigger] words[k].index == k
            &&& words[k].text@ == s.subrange(words[k].char_start as int, words[k].char_end as int)
        }
    &&& chars.len() == s.len()
    &&& forall|i: int|
        0 <= i < chars.len() ==> {
            &&& #[trigger] chars[i].ch == s[i]
            &&& chars[i].index == i
            &&& attributed_word(word_starts(words), i, chars[i].word_index as int)
        }
}

/// Split text into characters and words for staggered animation.
#[derive(Debug, Clone)]
pub struct SplitText {
    chars: Vec<SplitChar>,
    words: Vec<SplitWord>,
    original: String,
}

impl SplitText {
    /// The split characters.
    pub closed spec fn chars_view(&self) -> Seq<SplitChar> {
        self.chars@
    }

    /// The split words.
    pub closed spec fn words_view(&self) -> Seq<SplitWord> {
        self.words@
    }

    /// The text that was split.
    pub closed spec fn original_view(&self) -> Seq<char> {
        self.original@
    }

    /// The characters and words are the split of the original text.
    pub open spec fn wf(&self) -> bool {
        is_split_of(self.original_view(), self.chars_view(), self.words_view())
    }

    /// Split a string into characters and words. Works everywhere (no DOM).
    pub fn from_str(text: &str) -> (r: Self)
        ensures
            r.wf(),
            r.original_view() == text@,
    {
        let n = text.unicode_len();
        let ghost s = text@;
        let mut chars: Vec<SplitChar> = Vec::new();
        let mut words: Vec<SplitWord> = Vec::new();
        let mut in_word = false;
        let mut word_start: usize = 0;
        let mut i: usize = 0;
        proof {
            reveal(scan_inv);
        }
        while i < n
            invariant
                n == s.len(),
                s == text@,
                i <= n,
                scan_inv(s, i as int, chars@, words@, in_word, word_start as int),
            decreases n - i,
        {
            let c = text.get_char(i);
            if char_is_whitespace(c) {
                if in_word {
                    proof {
                        reveal(scan_inv);
                    }
                    let w = SplitWord {
                        text: text.substring_char(word_start, i).to_owned(),
                        index: words.len(),
                        char_start: word_start,
                        char_end: i,
                    };
                    proof {
                        lemma_close_word(s, i as int, chars@, words@, word_start as int, w);
                    }
                    words.push(w);
                    in_word = false;
                }
                let wi = if words.len() > 0 {
                    words.len() - 1
                } else {
                    0
                };
                let sc = SplitChar { ch: c, index: i, word_index: wi };
                proof {
                    lemma_push_space(s, i as int, chars@, words@, word_start as int, sc);
                }
                chars.push(sc);
            } else {
                let sc = SplitChar { ch: c, index: i, word_index: words.len() };
                proof {
                    lemma_push_word_char(s, i as int, chars@, words@, in_word, word_start as int, sc);
                }
                chars.push(sc);
                if !in_word {
                    in_word = true;
                    word_start = i;
                }
            }
            i += 1;
        }
        if in_word {
            proof {
                reveal(scan_inv);
            }
            let w = SplitWord {
                text: text.substring_char(word_start, n).to_owned(),
                index: words.len(),
                char_start: word_start,
                char_end: n,
            };
            proof {
                lemma_close_word(s, n as int, chars@, words@, word_start as int, w);
            }
            words.push(w);
        }
        proof {
            lemma_scan_complete(s, chars@, words@, word_start as int);
        }
        SplitText { chars, words, original: text.to_owned() }
    }

    /// All split characters.
    pub fn chars(&self) -> (r: &[SplitChar])
        ensures
            r@ == self.chars_view(),
    {
        self.chars.as_slice()
    }

    /// All split words.
    pub fn words(&self) -> (r: &[SplitWord])
        ensures
            r@ == self.words_view(),
    {
        self.words.as_slice()
    }

    /// Total character count (including spaces).
    pub fn char_count(&self) -> (r: usize)
        ensures
            r == self.chars_view().len(),
    {
        self.chars.len()
    }

    /// Word count.
    pub fn word_count(&self) -> (r: usize)
        ensures
            r == self.words_view().len(),
    {
        self.words.len()
    }

    /// The original text.
    pub fn original(&self) -> (r: &str)
        ensures
            r@ == self.original_view(),
    {
        self.original.as_str()
    }
}

/// The characters of a split spell out the original text, one entry per
/// character, white space included.
pub proof fn lemma_chars_spell_original(st: SplitText)
    requires
        st.wf(),
    ensures
        st.chars_view().map_values(|c: SplitChar| c.ch) == st.original_view(),
        st.chars_view().len() == st.original_view().len(),
{
    assert(st.chars_view().map_values(|c: SplitChar| c.ch) =~= st.original_view());
}

/// Every word is a non-empty run of non-white-space characters of the
/// original text, and the words appear in text order without overlapping.
pub proof fn lemma_words_are_runs(st: SplitText)
    requires
        st.wf(),
    ensures
        forall|k: int|
            #![trigger st.words_view()[k]]
            0 <= k < st.words_view().len() ==> {
                &&& st.words_view()[k].text@.len() > 0
                &&& forall|p: int|
                    0 <= p < st.words_view()[k].text@.len() ==> !is_white_space(
                        #[trigger] st.words_view()[k].text@[p],
                    )
            },
        forall|k1: int, k2: int|
            0 <= k1 < k2 < st.words_view().len() ==> #[trigger] st.words_view()[k1].char_end
                < #[trigger] st.words_view()[k2].char_start,
{
    let s = st.original_view();
    let words = st.words_view();
    let spans = words.map_values(|w: SplitWord| word_span(w));
    assert forall|k: int| #![trigger words[k]] 0 <= k < words.len() implies {
        &&& words[k].text@.len() > 0
        &&& forall|p: int| 0 <= p < words[k].text@.len() ==> !is_white_space(#[trigger] words[k].text@[p])
    } by {
        assert(spans[k] == word_span(words[k]));
        assert(starts_word(s, spans[k].0));
        assert(words[k].index == k);
        assert forall|p: int| 0 <= p < words[k].text@.len() implies !is_white_space(
            #[trigger] words[k].text@[p],
        ) by {
            assert(is_word_char(s, spans[k].0 + p));
        }
    }
    assert forall|k1: int, k2: int| 0 <= k1 < k2 < words.len() implies #[trigger] words[k1].char_end
        < #[trigger] words[k2].char_start by {
        assert forall|k: int| 0 <= k < spans.len() implies spans[k].0 < spans[k].1 by {
            assert(starts_word(s, spans[k].0));
        }
        lemma_spans_ordered(spans, k1, k2);
        assert(spans[k1] == word_span(words[k1]));
        assert(spans[k2] == word_span(words[k2]));
    }
}

proof fn lemma_spans_ordered(spans: Seq<(int, int)>, k1: int, k2: int)
    requires
        0 <= k1 < k2 < spans.len(),
        forall|k: int| 0 <= k < spans.len() ==> spans[k].0 < spans[k].1,
        forall|k: int| 0 <= k < spans.len() - 1 ==> #[trigger] spans[k].1 < spans[k + 1].0,
    ensures
        spans[k1].1 < spans[k2].0,
    decreases k2 - k1,
{
    if k1 + 1 < k2 {
        lemma_spans_ordered(spans, k1 + 1, k2);
        assert(spans[k1].1 < spans[k1 + 1].0);
    }
}

/// Each character inside a word is attributed to that word.
pub proof fn lemma_word_chars_attributed(st: SplitText, k: int, i: int)
    requires
        st.wf(),
        0 <= k < st.words_view().len(),
        st.words_view()[k].char_start <= i < st.words_view()[k].char_end,
    ensures
        0 <= i < st.chars_view().len(),
        st.chars_view()[i].word_index == k,
        st.chars_view()[i].ch == st.words_view()[k].text@[i - st.words_view()[k].char_start],
{
    let s = st.original_view();
    let words = st.words_view();
    let spans = words.map_values(|w: SplitWord| word_span(w));
    let starts = word_starts(words);
    assert(spans[k] == word_span(words[k]));
    assert(starts_word(s, spans[k].0));
    assert(words[k].index == k);
    assert(is_word_char(s, i));
    assert(st.chars_view()[i].ch == s[i]);
    assert(starts[k] == words[k].char_start);
    if k + 1 < words.len() {
        assert(spans[k + 1] == word_span(words[k + 1]));
        assert(spans[k].1 < spans[k + 1].0);
        assert(starts[k + 1] == words[k + 1].char_start);
    }
    assert(attributed_word(starts, i, st.chars_view()[i].word_index as int));
}

/// The word starts, followed by the start of the word being scanned.
spec fn open_starts(words: Seq<SplitWord>, in_word: bool, word_start: int) -> Seq<int> {
    if in_word {
        word_starts(words).push(word_start)
    } else {
        word_starts(words)
    }
}

/// What holds after the first `i` characters of `s` have been scanned:
/// `words` are the words that ended before `i`, and a word that started at
/// `word_start` is still open when `in_word`.
#[verifier::opaque]
spec fn scan_inv(
    s: Seq<char>,
    i: int,
    chars: Seq<SplitChar>,
    words: Seq<SplitWord>,
    in_word: bool,
    word_start: int,
) -> bool {
    &&& 0 <= i <= s.len()
    &&& chars.len() == i
    &&& in_word ==> word_start < i && starts_word(s, word_start) && forall|p: int|
        word_start <= p < i ==> is_word_char(s, p)
    &&& !in_word ==> !is_word_char(s, i - 1) || !is_word_char(s, i)
    &&& forall|k: int|
        #![trigger words[k]]
        0 <= k < words.len() ==> {
            &&& starts_word(s, words[k].char_start as int)
            &&& words[k].char_start < words[k].char_end <= i
            &&& ends_word(s, words[k].char_end as int)
            &&& in_word ==> words[k].char_end < word_start
            &&& forall|p: int| words[k].char_start <= p < words[k].char_end ==> is_word_char(s, p)
            &&& words[k].index == k
            &&& words[k].text@ == s.subrange(words[k].char_start as int, words[k].char_end as int)
        }
    &&& forall|k1: int, k2: int|
        0 <= k1 < k2 < words.len() ==> #[trigger] words[k1].char_end < #[trigger] words[k2].char_start
    &&& forall|p: int|
        #![trigger starts_word(s, p)]
        0 <= p < i && starts_word(s, p) ==> (in_word && p == word_start) || exists|k: int|
            0 <= k < words.len() && words[k].char_start == p
    &&& forall|j: int|
        #![trigger chars[j]]
        0 <= j < i ==> {
            &&& chars[j].ch == s[j]
            &&& chars[j].index == j
            &&& attributed_word(open_starts(words, in_word, word_start), j, chars[j].word_index as int)
        }
}

proof fn lemma_starts_increasing(
    s: Seq<char>,
    i: int,
    chars: Seq<SplitChar>,
    words: Seq<SplitWord>,
    in_word: bool,
    word_start: int,
)
    requires
        scan_inv(s, i, chars, words, in_word, word_start),
    ensures
        ({
            let st = open_starts(words, in_word, word_start);
            &&& forall|k1: int, k2: int| 0 <= k1 < k2 < st.len() ==> #[trigger] st[k1] < #[trigger] st[k2]
            &&& forall|k: int| 0 <= k < st.len() ==> #[trigger] st[k] < i
        }),
{
    reveal(scan_inv);
    let st = open_starts(words, in_word, word_start);
    assert forall|k1: int, k2: int| 0 <= k1 < k2 < st.len() implies #[trigger] st[k1] < #[trigger] st[k2] by {
        assert(st[k1] == words[k1].char_start);
        if k2 < words.len() {
            assert(st[k2] == words[k2].char_start);
        }
    }
    assert forall|k: int| 0 <= k < st.len() implies #[trigger] st[k] < i by {
        if k < words.len() {
            assert(st[k] == words[k].char_start);
        }
    }
}

proof fn lemma_attributed_last(st: Seq<int>, i: int)
    requires
        forall|k1: int, k2: int| 0 <= k1 < k2 < st.len() ==> #[trigger] st[k1] < #[trigger] st[k2],
        forall|k: int| 0 <= k < st.len() ==> #[trigger] st[k] <= i,
    ensures
        attributed_word(st, i, if st.len() == 0 { 0 } else { st.len() - 1 }),
{
    assert forall|k: int|
        0 <= k < st.len() && #[trigger] st[k] <= i && (k + 1 == st.len() || i < st[k + 1]) implies k
        == st.len() - 1 by {
        if k + 1 < st.len() {
            assert(st[k + 1] <= i);
        }
    }
}

proof fn lemma_attributed_extend(st: Seq<int>, x: int, j: int, w: int)
    requires
        attributed_word(st, j, w),
        j < x,
        forall|k: int| 0 <= k < st.len() ==> #[trigger] st[k] < x,
    ensures
        attributed_word(st.push(x), j, w),
{
    let st2 = st.push(x);
    assert forall|k: int|
        0 <= k < st2.len() && #[trigger] st2[k] <= j && (k + 1 == st2.len() || j < st2[k + 1]) implies w
        == k by {
        assert(k < st.len());
        assert(st2[k] == st[k]);
        if k + 1 < st.len() {
            assert(st2[k + 1] == st[k + 1]);
        }
    }
}

/// Closing the open word at `i` (a white-space position or the end of `s`).
proof fn lemma_close_word(
    s: Seq<char>,
    i: int,
    chars: Seq<SplitChar>,
    words: Seq<SplitWord>,
    word_start: int,
    w: SplitWord,
)
    requires
        scan_inv(s, i, chars, words, true, word_start),
        !is_word_char(s, i),
        w.text@ == s.subrange(word_start, i),
        w.index == words.len(),
        w.char_start == word_start,
        w.char_end == i,
    ensures
        scan_inv(s, i, chars, words.push(w), false, word_start),
        open_starts(words.push(w), false, word_start) == open_starts(words, true, word_start),
{
    reveal(scan_inv);
    let words2 = words.push(w);
    assert(open_starts(words2, false, word_start) =~= open_starts(words, true, word_start));
    assert forall|p: int|
        #![trigger starts_word(s, p)]
        0 <= p < i && starts_word(s, p) implies exists|k: int|
            0 <= k < words2.len() && words2[k].char_start == p by {
        if p == word_start {
            assert(words2[words.len() as int].char_start == p);
        } else {
            let k = choose|k: int| 0 <= k < words.len() && words[k].char_start == p;
            assert(words2[k].char_start == p);
        }
    }
    assert forall|k1: int, k2: int|
        0 <= k1 < k2 < words2.len() implies #[trigger] words2[k1].char_end
        < #[trigger] words2[k2].char_start by {
        assert(words2[k1] == words[k1]);
        if k2 < words.len() {
            assert(words2[k2] == words[k2]);
        }
    }
    assert forall|k: int| #![trigger words2[k]] 0 <= k < words2.len() implies {
        &&& starts_word(s, words2[k].char_start as int)
        &&& words2[k].char_start < words2[k].char_end <= i
        &&& ends_word(s, words2[k].char_end as int)
        &&& forall|p: int| words2[k].char_start <= p < words2[k].char_end ==> is_word_char(s, p)
        &&& words2[k].index == k
        &&& words2[k].text@ == s.subrange(words2[k].char_start as int, words2[k].char_end as int)
    } by {
        if k < words.len() {
            assert(words2[k] == words[k]);
        }
    }
}

/// Recording a white-space character at `i` outside any word.
proof fn lemma_push_space(
    s: Seq<char>,
    i: int,
    chars: Seq<SplitChar>,
    words: Seq<SplitWord>,
    word_start: int,
    c: SplitChar,
)
    requires
        scan_inv(s, i, chars, words, false, word_start),
        i < s.len(),
        !is_word_char(s, i),
        c.ch == s[i],
        c.index == i,
        c.word_index == if words.len() > 0 { words.len() - 1 } else { 0 },
    ensures
        scan_inv(s, i + 1, chars.push(c), words, false, word_start),
{
    lemma_starts_increasing(s, i, chars, words, false, word_start);
    reveal(scan_inv);
    let st = open_starts(words, false, word_start);
    lemma_attributed_last(st, i);
    let chars2 = chars.push(c);
    assert forall|j: int| #![trigger chars2[j]] 0 <= j < i + 1 implies {
        &&& chars2[j].ch == s[j]
        &&& chars2[j].index == j
        &&& attributed_word(st, j, chars2[j].word_index as int)
    } by {
        if j < i {
            assert(chars2[j] == chars[j]);
        }
    }
    assert forall|p: int|
        #![trigger starts_word(s, p)]
        0 <= p < i + 1 && starts_word(s, p) implies exists|k: int|
            0 <= k < words.len() && words[k].char_start == p by {
        assert(p < i);
    }
}

/// Recording a word character at `i`, opening a word there when none is open.
proof fn lemma_push_word_char(
    s: Seq<char>,
    i: int,
    chars: Seq<SplitChar>,
    words: Seq<SplitWord>,
    in_word: bool,
    word_start: int,
    c: SplitChar,
)
    requires
        scan_inv(s, i, chars, words, in_word, word_start),
        is_word_char(s, i),
        c.ch == s[i],
        c.index == i,
        c.word_index == words.len(),
    ensures
        scan_inv(s, i + 1, chars.push(c), words, true, if in_word { word_start } else { i }),
{
    lemma_starts_increasing(s, i, chars, words, in_word, word_start);
    reveal(scan_inv);
    let ws2 = if in_word { word_start } else { i };
    let old_st = open_starts(words, in_word, word_start);
    let st = open_starts(words, true, ws2);
    if !in_word {
        assert(st =~= old_st.push(i));
        assert forall|j: int| 0 <= j < i implies attributed_word(
            st,
            j,
            #[trigger] chars[j].word_index as int,
        ) by {
            lemma_attributed_extend(old_st, i, j, chars[j].word_index as int);
        }
    } else {
        assert(st =~= old_st);
    }
    assert forall|k1: int, k2: int| 0 <= k1 < k2 < st.len() implies #[trigger] st[k1] < #[trigger] st[k2] by {
        if !in_word && k2 == st.len() - 1 {
            assert(st[k1] == old_st[k1]);
        } else {
            assert(st[k1] == old_st[k1]);
            assert(st[k2] == old_st[k2]);
        }
    }
    assert forall|k: int| 0 <= k < st.len() implies #[trigger] st[k] <= i by {
        if k < old_st.len() {
            assert(st[k] == old_st[k]);
        }
    }
    lemma_attributed_last(st, i);
    let chars2 = chars.push(c);
    assert forall|j: int| #![trigger chars2[j]] 0 <= j < i + 1 implies {
        &&& chars2[j].ch == s[j]
        &&& chars2[j].index == j
        &&& attributed_word(st, j, chars2[j].word_index as int)
    } by {
        if j < i {
            assert(chars2[j] == chars[j]);
        }
    }
    assert forall|p: int|
        #![trigger starts_word(s, p)]
        0 <= p < i + 1 && starts_word(s, p) implies (p == ws2) || exists|k: int|
            0 <= k < words.len() && words[k].char_start == p by {
        if p == i {
            if in_word {
                assert(is_word_char(s, i - 1));
            }
        }
    }
}

/// Once every character is scanned and no word is open, the scan is the split.
proof fn lemma_scan_complete(s: Seq<char>, chars: Seq<SplitChar>, words: Seq<SplitWord>, word_start: int)
    requires
        scan_inv(s, s.len() as int, chars, words, false, word_start),
    ensures
        is_split_of(s, chars, words),
{
    reveal(scan_inv);
    let spans = words.map_values(|w: SplitWord| word_span(w));
    assert(open_starts(words, false, word_start) == word_starts(words));
    assert forall|p: int| #[trigger] starts_word(s, p) implies exists|k: int|
        0 <= k < spans.len() && spans[k].0 == p by {
        let k = choose|k: int| 0 <= k < words.len() && words[k].char_start == p;
        assert(spans[k].0 == p);
    }
    assert forall|k: int| 0 <= k < spans.len() implies {
        &&& #[trigger] starts_word(s, spans[k].0)
        &&& spans[k].0 < spans[k].1
        &&& ends_word(s, spans[k].1)
        &&& forall|p: int| spans[k].0 <= p < spans[k].1 ==> is_word_char(s, p)
    } by {
        assert(spans[k] == word_span(words[k]));
    }
    assert forall|k: int| 0 <= k < spans.len() - 1 implies #[trigger] spans[k].1 < spans[k + 1].0 by {
        assert(spans[k] == word_span(words[k]));
        assert(spans[k + 1] == word_span(words[k + 1]));
        assert(words[k].char_end < words[k + 1].char_start);
    }
    assert forall|k: int| 0 <= k < words.len() implies {
        &&& #[trigger] words[k].index == k
        &&& words[k].text@ == s.subrange(words[k].char_start as int, words[k].char_end as int)
    } by {
        assert(words[k] == words[k]);
    }
    assert forall|i: int| 0 <= i < chars.len() implies {
        &&& #[trigger] chars[i].ch == s[i]
        &&& chars[i].index == i
        &&& attributed_word(word_starts(words), i, chars[i].word_index as int)
    } by {
        assert(chars[i] == chars[i]);
    }
}

} // verus!
