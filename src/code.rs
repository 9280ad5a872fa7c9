use vstd::prelude::*;

verus! {

/// Why a text is not a wormhole code.
#[derive(Debug, Clone, Copy, PartialEq, Eq, Structural)]
pub enum CodeFormatError {
    /// The text is empty.
    Empty,
    /// The part before the first dash is not a non-empty run of decimal digits.
    InvalidNameplate,
    /// The nameplate is not followed by any word.
    MissingWords,
    /// Two dashes are adjacent, or the text ends with a dash.
    EmptyWord,
}

/// The text by which each format error is reported.
pub open spec fn code_error_text(e: CodeFormatError) -> Seq<char> {
    match e {
        CodeFormatError::Empty => "the code is empty"@,
        CodeFormatError::InvalidNameplate => "the nameplate of the code is not a number"@,
        CodeFormatError::MissingWords => "the code has no words after its nameplate"@,
        CodeFormatError::EmptyWord => "the code has an empty word"@,
    }
}

impl CodeFormatError {
    pub fn describe(&self) -> (r: String)
        ensures
            r@ == code_error_text(*self),
    {
        match self {
            CodeFormatError::Empty => String::from_str("the code is empty"),
            CodeFormatError::InvalidNameplate => String::from_str(
                "the nameplate of the code is not a number",
            ),
            CodeFormatError::MissingWords => String::from_str(
                "the code has no words after its nameplate",
            ),
            CodeFormatError::EmptyWord => String::from_str("the code has an empty word"),
        }
    }
}

pub open spec fn is_digit(c: char) -> bool {
    '0' <= c && c <= '9'
}

/// The segments of `s` between dashes, from left to right; a text without a
/// dash is a single segment.
pub open spec fn split_dash(s: Seq<char>) -> Seq<Seq<char>>
    decreases s.len(),
{
    if s.len() == 0 {
        seq![Seq::<char>::empty()]
    } else {
        let rest = split_dash(s.drop_last());
        if s.last() == '-' {
            rest.push(Seq::<char>::empty())
        } else {
            rest.update(rest.len() - 1, rest.last().push(s.last()))
        }
    }
}

/// The segments joined with a dash between each two.
pub open spec fn join_dash(parts: Seq<Seq<char>>) -> Seq<char>
    decreases parts.len(),
{
    if parts.len() == 0 {
        Seq::<char>::empty()
    } else if parts.len() == 1 {
        parts[0]
    } else {
        join_dash(parts.drop_last()) + seq!['-'] + parts.last()
    }
}

pub open spec fn valid_nameplate(n: Seq<char>) -> bool {
    n.len() > 0 && forall|i: int| 0 <= i < n.len() ==> is_digit(#[trigger] n[i])
}

pub open spec fn valid_word(w: Seq<char>) -> bool {
    w.len() > 0 && forall|i: int| 0 <= i < w.len() ==> #[trigger] w[i] != '-'
}

/// A nameplate followed by at least one word.
pub open spec fn valid_parts(nameplate: Seq<char>, words: Seq<Seq<char>>) -> bool {
    &&& valid_nameplate(nameplate)
    &&& words.len() > 0
    &&& forall|i: int| 0 <= i < words.len() ==> valid_word(#[trigger] words[i])
}

/// The text of a code: `nameplate-word-word-...`.
pub open spec fn code_text(nameplate: Seq<char>, words: Seq<Seq<char>>) -> Seq<char> {
    join_dash(seq![nameplate] + words)
}

pub open spec fn valid_code(s: Seq<char>) -> bool {
    let parts = split_dash(s);
    parts.len() >= 2 && valid_parts(parts[0], parts.drop_first())
}

/// The error that parsing reports for a text that is not a valid code.
pub open spec fn code_error(s: Seq<char>) -> CodeFormatError {
    let parts = split_dash(s);
    if s.len() == 0 {
        CodeFormatError::Empty
    } else if !valid_nameplate(parts[0]) {
        CodeFormatError::InvalidNameplate
    } else if parts.len() < 2 {
        CodeFormatError::MissingWords
    } else {
        CodeFormatError::EmptyWord
    }
}

pub open spec fn views(v: Seq<String>) -> Seq<Seq<char>> {
    v.map_values(|w: String| w@)
}

proof fn lemma_split_shape(s: Seq<char>)
    ensures
        split_dash(s).len() >= 1,
        forall|i: int, j: int|
            0 <= i < split_dash(s).len() && 0 <= j < split_dash(s)[i].len()
                ==> #[trigger] split_dash(s)[i][j] != '-',
    decreases s.len(),
{
    if s.len() > 0 {
        lemma_split_shape(s.drop_last());
    }
}

/// Splitting at the dashes and joining again gives back the text.
proof fn lemma_join_split(s: Seq<char>)
    ensures
        join_dash(split_dash(s)) == s,
    decreases s.len(),
{
    if s.len() > 0 {
        let s0 = s.drop_last();
        let p = split_dash(s0);
        lemma_split_shape(s0);
        lemma_join_split(s0);
        let q = split_dash(s);
        if s.last() == '-' {
            assert(q.drop_last() =~= p);
        } else if p.len() == 1 {
            assert(q[0] == s0.push(s.last()));
        } else {
            assert(q.drop_last() =~= p.drop_last());
        }
        assert(s =~= s0.push(s.last()));
    }
}

/// Appending dash-free text extends the last segment.
proof fn lemma_split_append(a: Seq<char>, b: Seq<char>)
    requires
        forall|j: int| 0 <= j < b.len() ==> b[j] != '-',
    ensures
        split_dash(a + b) == split_dash(a).update(
            split_dash(a).len() - 1,
            split_dash(a).last() + b,
        ),
    decreases b.len(),
{
    lemma_split_shape(a);
    if b.len() == 0 {
        assert(a + b =~= a);
        assert(split_dash(a).last() + b =~= split_dash(a).last());
        assert(split_dash(a).update(split_dash(a).len() - 1, split_dash(a).last())
            =~= split_dash(a));
    } else {
        let b0 = b.drop_last();
        lemma_split_append(a, b0);
        assert((a + b).drop_last() =~= a + b0);
        assert(split_dash(a).last() + b =~= (split_dash(a).last() + b0).push(b.last()));
        assert(split_dash(a + b) =~= split_dash(a).update(
            split_dash(a).len() - 1,
            split_dash(a).last() + b,
        ));
    }
}

/// Joining dash-free segments and splitting again gives back the segments.
proof fn lemma_split_join(parts: Seq<Seq<char>>)
    requires
        parts.len() >= 1,
        forall|i: int, j: int|
            0 <= i < parts.len() && 0 <= j < parts[i].len() ==> #[trigger] parts[i][j] != '-',
    ensures
        split_dash(join_dash(parts)) == parts,
    decreases parts.len(),
{
    if parts.len() == 1 {
        let e = Seq::<char>::empty();
        lemma_split_append(e, parts[0]);
        assert(e + parts[0] =~= parts[0]);
        assert(split_dash(e) =~= seq![e]);
        assert(split_dash(parts[0]) =~= parts);
    } else {
        let p0 = parts.drop_last();
        lemma_split_join(p0);
        let a = join_dash(p0) + seq!['-'];
        assert(a.drop_last() =~= join_dash(p0));
        lemma_split_shape(a);
        lemma_split_append(a, parts.last());
        assert(split_dash(a) =~= p0.push(Seq::<char>::empty()));
        assert(Seq::<char>::empty() + parts.last() =~= parts.last());
        assert(split_dash(join_dash(parts)) =~= parts);
    }
}

/// For every valid code, reading its nameplate and words and writing them out
/// again gives back the same text; and for every nameplate and non-empty list
/// of words, the text they make is a valid code that reads back as exactly
/// that nameplate and those words.
pub proof fn lemma_code_round_trip(s: Seq<char>, nameplate: Seq<char>, words: Seq<Seq<char>>)
    ensures
        valid_code(s) ==> code_text(split_dash(s)[0], split_dash(s).drop_first()) == s,
        valid_parts(nameplate, words) ==> {
            let t = code_text(nameplate, words);
            &&& valid_code(t)
            &&& split_dash(t)[0] == nameplate
            &&& split_dash(t).drop_first() == words
        },
{
    lemma_split_shape(s);
    lemma_join_split(s);
    assert(seq![split_dash(s)[0]] + split_dash(s).drop_first() =~= split_dash(s));
    if valid_parts(nameplate, words) {
        let parts = seq![nameplate] + words;
        assert forall|i: int, j: int|
            0 <= i < parts.len() && 0 <= j < parts[i].len() implies #[trigger] parts[i][j]
            != '-' by {
            if i == 0 {
                assert(is_digit(nameplate[j]));
            } else {
                assert(parts[i] == words[i - 1]);
                assert(valid_word(words[i - 1]));
            }
        }
        lemma_split_join(parts);
        assert(parts.drop_first() =~= words);
    }
}

/// A wormhole code read into its nameplate and its words.
#[derive(Debug)]
pub struct ParsedCode {
    nameplate: String,
    words: Vec<String>,
}

impl ParsedCode {
    pub closed spec fn spec_nameplate(&self) -> Seq<char> {
        self.nameplate@
    }

    pub closed spec fn spec_words(&self) -> Seq<Seq<char>> {
        views(self.words@)
    }

    pub open spec fn wf(&self) -> bool {
        valid_parts(self.spec_nameplate(), self.spec_words())
    }

    /// Puts a code together from a nameplate and its words; `None` where the
    /// nameplate is not a run of digits, there is no word, or a word is empty
    /// or holds a dash.
    pub fn from_parts(nameplate: String, words: Vec<String>) -> (r: Option<ParsedCode>)
        ensures
            r is Some <==> valid_parts(nameplate@, views(words@)),
            r matches Some(c) ==> c.spec_nameplate() == nameplate@ && c.spec_words() == views(
                words@,
            ),
    {
        if !is_nameplate(nameplate.as_str()) || words.len() == 0 {
            return None;
        }
        let mut k: usize = 0;
        while k < words.len()
            invariant
                0 <= k <= words.len(),
                forall|i: int| 0 <= i < k ==> valid_word(#[trigger] views(words@)[i]),
            decreases words.len() - k,
        {
            assert(views(words@)[k as int] == words@[k as int]@);
            if !is_word(words[k].as_str()) {
                return None;
            }
            k = k + 1;
        }
        Some(ParsedCode { nameplate, words })
    }

    pub fn nameplate(&self) -> (r: &String)
        ensures
            r@ == self.spec_nameplate(),
    {
        &self.nameplate
    }

    pub fn words(&self) -> (r: &Vec<String>)
        ensures
            views(r@) == self.spec_words(),
    {
        &self.words
    }

    /// The text of the code: the nameplate and the words, joined by dashes.
    pub fn format(&self) -> (r: String)
        ensures
            r@ == code_text(self.spec_nameplate(), self.spec_words()),
    {
        let mut out = self.nameplate.clone();
        let ghost ws = views(self.words@);
        let mut k: usize = 0;
        proof {
            reveal_strlit("-");
            assert(seq![self.nameplate@] + ws.take(0) =~= seq![self.nameplate@]);
        }
        while k < self.words.len()
            invariant
                0 <= k <= self.words.len(),
                ws == views(self.words@),
                "-"@ == seq!['-'],
                out@ == join_dash(seq![self.nameplate@] + ws.take(k as int)),
            decreases self.words.len() - k,
        {
            out.append("-");
            out.append(self.words[k].as_str());
            proof {
                let next = seq![self.nameplate@] + ws.take(k + 1);
                assert(next.drop_last() =~= seq![self.nameplate@] + ws.take(k as int));
                assert(next.last() == self.words@[k as int]@);
            }
            k = k + 1;
        }
        proof {
            assert(ws.take(k as int) =~= ws);
        }
        out
    }
}

fn is_nameplate(s: &str) -> (r: bool)
    ensures
        r == valid_nameplate(s@),
{
    let n = s.unicode_len();
    if n == 0 {
        return false;
    }
    let mut i: usize = 0;
    while i < n
        invariant
            n == s@.len(),
            0 <= i <= n,
            forall|j: int| 0 <= j < i ==> is_digit(#[trigger] s@[j]),
        decreases n - i,
    {
        let c = s.get_char(i);
        if !('0' <= c && c <= '9') {
            return false;
        }
        i = i + 1;
    }
    true
}

fn is_word(s: &str) -> (r: bool)
    ensures
        r == valid_word(s@),
{
    let n = s.unicode_len();
    if n == 0 {
        return false;
    }
    let mut i: usize = 0;
    while i < n
        invariant
            n == s@.len(),
            0 <= i <= n,
            forall|j: int| 0 <= j < i ==> #[trigger] s@[j] != '-',
        decreases n - i,
    {
        if s.get_char(i) == '-' {
            return false;
        }
        i = i + 1;
    }
    true
}

/// Reads a wormhole code `nameplate-word-word-...`: the text is cut at every
/// dash, the first segment must be a non-empty run of decimal digits, and at
/// least one non-empty word must follow.
pub fn parse_code(code: &str) -> (r: Result<ParsedCode, CodeFormatError>)
    ensures
        r is Ok <==> valid_code(code@),
        r matches Ok(c) ==> c.wf() && c.spec_nameplate() == split_dash(code@)[0]
            && c.spec_words() == split_dash(code@).drop_first(),
        r matches Err(e) ==> e == code_error(code@),
{
    let n = code.unicode_len();
    let mut segs: Vec<String> = Vec::new();
    let mut start: usize = 0;
    let mut i: usize = 0;
    proof {
        assert(code@.take(0) =~= Seq::<char>::empty());
        assert(code@.subrange(0, 0) =~= Seq::<char>::empty());
        assert(views(segs@).push(Seq::<char>::empty()) =~= seq![Seq::<char>::empty()]);
    }
    while i < n
        invariant
            n == code@.len(),
            0 <= start <= i <= n,
            split_dash(code@.take(i as int)) == views(segs@).push(
                code@.subrange(start as int, i as int),
            ),
        decreases n - i,
    {
        let c = code.get_char(i);
        let ghost before = views(segs@);
        assert(code@.take(i + 1).drop_last() =~= code@.take(i as int));
        if c == '-' {
            let seg = code.substring_char(start, i).to_owned();
            segs.push(seg);
            start = i + 1;
            proof {
                assert(views(segs@) =~= before.push(seg@));
                assert(code@.subrange(start as int, i + 1) =~= Seq::<char>::empty());
            }
        } else {
            proof {
                assert(code@.subrange(start as int, i + 1) =~= code@.subrange(start as int, i as int).push(c));
                assert(views(segs@).push(code@.subrange(start as int, i + 1)) =~= before.push(
                    code@.subrange(start as int, i as int),
                ).update(before.len() as int, code@.subrange(start as int, i as int).push(c)));
            }
        }
        i = i + 1;
    }
    let last = code.substring_char(start, n).to_owned();
    let ghost before = views(segs@);
    segs.push(last);
    proof {
        assert(code@.take(n as int) =~= code@);
        assert(views(segs@) =~= before.push(last@));
        assert(views(segs@) == split_dash(code@));
    }
    if n == 0 {
        return Err(CodeFormatError::Empty);
    }
    if !is_nameplate(segs[0].as_str()) {
        return Err(CodeFormatError::InvalidNameplate);
    }
    if segs.len() < 2 {
        return Err(CodeFormatError::MissingWords);
    }
    assert(segs@[0]@ == split_dash(code@)[0]);
    let nameplate = segs.remove(0);
    let ghost words_view = views(segs@);
    proof {
        assert(words_view =~= split_dash(code@).drop_first());
        lemma_split_shape(code@);
        assert(words_view.len() == segs@.len());
    }
    let mut k: usize = 0;
    while k < segs.len()
        invariant
            0 <= k <= segs.len(),
            words_view == views(segs@),
            words_view == split_dash(code@).drop_first(),
            words_view.len() == segs@.len(),
            split_dash(code@).len() == segs@.len() + 1,
            valid_nameplate(split_dash(code@)[0]),
            forall|j: int| 0 <= j < k ==> valid_word(#[trigger] words_view[j]),
        decreases segs.len() - k,
    {
        assert(words_view[k as int] == segs@[k as int]@);
        if segs[k].unicode_len() == 0 {
            return Err(CodeFormatError::EmptyWord);
        }
        proof {
            lemma_split_shape(code@);
            let w = words_view[k as int];
            assert(w == split_dash(code@)[k + 1]);
            assert forall|j: int| 0 <= j < w.len() implies #[trigger] w[j] != '-' by {
                assert(split_dash(code@)[k + 1][j] != '-');
            }
        }
        k = k + 1;
    }
    Ok(ParsedCode { nameplate, words: segs })
}

} // verus!
