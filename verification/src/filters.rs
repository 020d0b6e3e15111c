//! The three filter kinds of the query language: character-multiset match
//! with wildcards, word-length comparison, and fixed-position subsequence
//! match.  Each kind has a parser from token text and a check against a word.
use vstd::prelude::*;
use vstd::string::StringExecFns;

use crate::text::{
    decimal_value, fold_chars, fold_lower, literal_digits, parse_usize, parses_to_usize,
};

verus! {

/// The comparison operator of a length filter.
#[derive(Clone, Copy, Debug, PartialEq, Eq)]
pub enum ComparisonType {
    Eq,
    Lt,
    Gt,
    Le,
    Ge,
}

/// The mathematical content of a filter: what it requires of a word.
pub enum FilterModel {
    /// Every character of the word must consume either one required
    /// occurrence of that exact character or one wildcard.
    Match { req: Seq<char>, wild: nat },
    /// The word's length must compare to the target as the operator says.
    Length { op: ComparisonType, target: nat },
    /// The word must carry the pattern verbatim at the given offset.
    Sequence { start: nat, pat: Seq<char> },
}

pub open spec fn len_matches(op: ComparisonType, len: nat, target: nat) -> bool {
    match op {
        ComparisonType::Eq => len == target,
        ComparisonType::Lt => len < target,
        ComparisonType::Gt => len > target,
        ComparisonType::Le => len <= target,
        ComparisonType::Ge => len >= target,
    }
}

/// The required tally with the first occurrence of one character removed.
pub open spec fn remove_one(s: Seq<char>, c: char) -> Seq<char>
    decreases s.len(),
{
    if s.len() == 0 {
        s
    } else if s[0] == c {
        s.drop_first()
    } else {
        seq![s[0]] + remove_one(s.drop_first(), c)
    }
}

/// Walks the word front to back: each character consumes one required
/// occurrence of itself if any remains, else one wildcard if any remains,
/// else the word is rejected.
pub open spec fn match_consumes(w: Seq<char>, req: Seq<char>, wild: nat) -> bool
    decreases w.len(),
{
    if w.len() == 0 {
        true
    } else if req.contains(w[0]) {
        match_consumes(w.drop_first(), remove_one(req, w[0]), wild)
    } else if wild > 0 {
        match_consumes(w.drop_first(), req, (wild - 1) as nat)
    } else {
        false
    }
}

pub open spec fn pos_matches(start: nat, pat: Seq<char>, w: Seq<char>) -> bool {
    w.len() >= start + pat.len() && (forall|i: int| 0 <= i < pat.len() ==> w[start + i] == pat[i])
}

/// Whether a word satisfies a filter.
pub open spec fn filter_matches(m: FilterModel, w: Seq<char>) -> bool {
    match m {
        FilterModel::Match { req, wild } => match_consumes(w, req, wild),
        FilterModel::Length { op, target } => len_matches(op, w.len(), target),
        FilterModel::Sequence { start, pat } => pos_matches(start, pat, w),
    }
}

/// Why a token was rejected by one of the filter parsers.
#[derive(Clone, Copy, Debug, PartialEq, Eq)]
pub enum FilterErrorKind {
    /// The token is empty where an operator was expected.
    EmptyText,
    /// The token starts with none of `=`, `<`, `>`.
    BadOperator,
    /// What follows the operator is no `usize` decimal literal.
    BadLength,
    /// What precedes the `:` is non-empty and no `usize` decimal literal.
    BadStart,
    /// The token has no `:`, so no subsequence part.
    MissingPattern,
}

pub open spec fn kind_description(k: FilterErrorKind) -> Seq<char> {
    match k {
        FilterErrorKind::EmptyText => "empty string"@,
        FilterErrorKind::BadOperator => "invalid comparison operator"@,
        FilterErrorKind::BadLength => "invalid length"@,
        FilterErrorKind::BadStart => "invalid start index"@,
        FilterErrorKind::MissingPattern => "missing sequence"@,
    }
}

/// A structured reason for a filter-text parse failure.
#[derive(Clone, Copy, Debug, PartialEq, Eq)]
pub struct FilterParseError {
    pub kind: FilterErrorKind,
}

impl FilterParseError {
    pub fn new(kind: FilterErrorKind) -> (r: FilterParseError)
        ensures
            r.kind == kind,
    {
        FilterParseError { kind }
    }

    /// A human-readable description of the failure.
    pub fn description(&self) -> (r: String)
        ensures
            r@ == kind_description(self.kind),
    {
        match self.kind {
            FilterErrorKind::EmptyText => String::from_str("empty string"),
            FilterErrorKind::BadOperator => String::from_str("invalid comparison operator"),
            FilterErrorKind::BadLength => String::from_str("invalid length"),
            FilterErrorKind::BadStart => String::from_str("invalid start index"),
            FilterErrorKind::MissingPattern => String::from_str("missing sequence"),
        }
    }
}

/// A word-length comparison filter.
#[derive(Clone, Copy, Debug)]
pub struct LenFilter {
    pub ctype: ComparisonType,
    pub clen: usize,
}

impl View for LenFilter {
    type V = FilterModel;

    open spec fn view(&self) -> FilterModel {
        FilterModel::Length { op: self.ctype, target: self.clen as nat }
    }
}

pub open spec fn len_parse_num(op: ComparisonType, rest: Seq<char>) -> Result<
    FilterModel,
    FilterErrorKind,
> {
    if parses_to_usize(rest) {
        Ok(FilterModel::Length { op, target: decimal_value(literal_digits(rest)) })
    } else {
        Err(FilterErrorKind::BadLength)
    }
}

/// How length-filter text parses: an operator prefix (`=`, `<`, `>`, `<=`,
/// `>=`), then a `usize` decimal literal.
pub open spec fn len_parse(s: Seq<char>) -> Result<FilterModel, FilterErrorKind> {
    if s.len() == 0 {
        Err(FilterErrorKind::EmptyText)
    } else if s[0] == '=' {
        len_parse_num(ComparisonType::Eq, s.skip(1))
    } else if s[0] == '<' {
        if s.len() >= 2 && s[1] == '=' {
            len_parse_num(ComparisonType::Le, s.skip(2))
        } else {
            len_parse_num(ComparisonType::Lt, s.skip(1))
        }
    } else if s[0] == '>' {
        if s.len() >= 2 && s[1] == '=' {
            len_parse_num(ComparisonType::Ge, s.skip(2))
        } else {
            len_parse_num(ComparisonType::Gt, s.skip(1))
        }
    } else {
        Err(FilterErrorKind::BadOperator)
    }
}

impl LenFilter {
    pub fn new(ctype: ComparisonType, clen: usize) -> (r: Self)
        ensures
            r.ctype == ctype,
            r.clen == clen,
    {
        Self { ctype, clen }
    }

    /// Parses length-filter text; errors exactly where `len_parse` errors.
    pub fn from_str(s: &[char]) -> (r: Result<Self, FilterParseError>)
        ensures
            r is Ok <==> len_parse(s@) is Ok,
            r matches Ok(f) ==> f@ == len_parse(s@)->Ok_0,
            r matches Err(e) ==> e.kind == len_parse(s@)->Err_0,
    {
        if s.len() == 0 {
            return Err(FilterParseError::new(FilterErrorKind::EmptyText));
        }
        let (ctype, num_start): (ComparisonType, usize) = if s[0] == '=' {
            (ComparisonType::Eq, 1)
        } else if s[0] == '<' {
            if s.len() >= 2 && s[1] == '=' {
                (ComparisonType::Le, 2)
            } else {
                (ComparisonType::Lt, 1)
            }
        } else if s[0] == '>' {
            if s.len() >= 2 && s[1] == '=' {
                (ComparisonType::Ge, 2)
            } else {
                (ComparisonType::Gt, 1)
            }
        } else {
            return Err(FilterParseError::new(FilterErrorKind::BadOperator));
        };
        let rest = &s[num_start..s.len()];
        proof {
            assert(rest@ =~= s@.skip(num_start as int));
        }
        match parse_usize(rest) {
            Some(n) => Ok(LenFilter::new(ctype, n)),
            None => Err(FilterParseError::new(FilterErrorKind::BadLength)),
        }
    }

    /// Compares the word's length to the target with the chosen operator.
    pub fn check(&self, word: &[char]) -> (r: bool)
        ensures
            r == filter_matches(self@, word@),
    {
        let len = word.len();
        match self.ctype {
            ComparisonType::Eq => len == self.clen,
            ComparisonType::Lt => len < self.clen,
            ComparisonType::Gt => len > self.clen,
            ComparisonType::Le => len <= self.clen,
            ComparisonType::Ge => len >= self.clen,
        }
    }
}

/// A length filter's verdict is monotone along word length: downward for
/// the upper-bound operators `<` and `<=`, upward for `>` and `>=`.
pub proof fn lemma_len_matches_monotonic(op: ComparisonType, target: nat, l1: nat, l2: nat)
    ensures
        (op is Lt || op is Le) && l1 <= l2 && len_matches(op, l2, target) ==> len_matches(
            op,
            l1,
            target,
        ),
        (op is Gt || op is Ge) && l1 >= l2 && len_matches(op, l2, target) ==> len_matches(
            op,
            l1,
            target,
        ),
{
}

/// The index of the first occurrence of a character, or the text's length
/// where it does not occur.
pub open spec fn find_char(s: Seq<char>, c: char) -> int
    decreases s.len(),
{
    if s.len() == 0 {
        0
    } else if s[0] == c {
        0
    } else {
        1 + find_char(s.drop_first(), c)
    }
}

pub proof fn lemma_find_char(s: Seq<char>, c: char)
    ensures
        0 <= find_char(s, c) <= s.len(),
        find_char(s, c) < s.len() ==> s[find_char(s, c)] == c,
        forall|k: int| 0 <= k < find_char(s, c) ==> s[k] != c,
    decreases s.len(),
{
    if s.len() == 0 || s[0] == c {
    } else {
        lemma_find_char(s.drop_first(), c);
        assert forall|k: int| 0 <= k < find_char(s, c) implies s[k] != c by {
            if k >= 1 {
                assert(s.drop_first()[k - 1] != c);
            }
        }
    }
}

/// A position scanned first to last that stops at `c` is `find_char`.
pub proof fn lemma_find_char_at(s: Seq<char>, c: char, j: int)
    requires
        0 <= j <= s.len(),
        forall|k: int| 0 <= k < j ==> s[k] != c,
        j < s.len() ==> s[j] == c,
    ensures
        find_char(s, c) == j,
    decreases j,
{
    if s.len() == 0 {
    } else if j == 0 {
    } else {
        assert(s[0] != c);
        lemma_find_char_at(s.drop_first(), c, j - 1);
    }
}

/// A fixed-position literal-subsequence filter.
#[derive(Debug)]
pub struct SeqFilter {
    pub start: usize,
    pub pat: Vec<char>,
}

impl View for SeqFilter {
    type V = FilterModel;

    open spec fn view(&self) -> FilterModel {
        FilterModel::Sequence { start: self.start as nat, pat: self.pat@ }
    }
}

/// How sequence-filter text parses: an optional decimal start offset, a
/// `:`, then the literal pattern (which may be empty).  The offset part is
/// examined before the `:` is required, as the error kinds show.
pub open spec fn seq_parse(s: Seq<char>) -> Result<FilterModel, FilterErrorKind> {
    let j = find_char(s, ':');
    let pre = s.take(j);
    if pre.len() != 0 && !parses_to_usize(pre) {
        Err(FilterErrorKind::BadStart)
    } else if j == s.len() {
        Err(FilterErrorKind::MissingPattern)
    } else {
        Ok(
            FilterModel::Sequence {
                start: if pre.len() == 0 {
                    0
                } else {
                    decimal_value(literal_digits(pre))
                },
                pat: s.skip(j + 1),
            },
        )
    }
}

impl SeqFilter {
    /// The shortest word length the filter can accept.  Kept as a derived
    /// quantity so that no stored field can overflow.
    pub open spec fn min_word_len(&self) -> int {
        self.start + self.pat@.len()
    }

    pub fn new(start: usize, pat: Vec<char>) -> (r: Self)
        ensures
            r.start == start,
            r.pat@ == pat@,
    {
        Self { start, pat }
    }

    /// Parses sequence-filter text; errors exactly where `seq_parse` errors.
    pub fn from_str(s: &[char]) -> (r: Result<Self, FilterParseError>)
        ensures
            r is Ok <==> seq_parse(s@) is Ok,
            r matches Ok(f) ==> f@ == seq_parse(s@)->Ok_0,
            r matches Err(e) ==> e.kind == seq_parse(s@)->Err_0,
    {
        let mut j: usize = 0;
        while j < s.len() && s[j] != ':'
            invariant
                0 <= j <= s.len(),
                forall|k: int| 0 <= k < j ==> s@[k] != ':',
            decreases s.len() - j,
        {
            j = j + 1;
        }
        proof {
            lemma_find_char_at(s@, ':', j as int);
        }
        let pre = &s[0..j];
        proof {
            assert(pre@ =~= s@.take(j as int));
        }
        let start: usize = if pre.len() == 0 {
            0
        } else {
            match parse_usize(pre) {
                Some(n) => n,
                None => {
                    return Err(FilterParseError::new(FilterErrorKind::BadStart));
                },
            }
        };
        if j == s.len() {
            return Err(FilterParseError::new(FilterErrorKind::MissingPattern));
        }
        let pat_slice = &s[j + 1..s.len()];
        proof {
            assert(pat_slice@ =~= s@.skip(j + 1));
        }
        let mut pat: Vec<char> = Vec::new();
        let mut i: usize = 0;
        while i < pat_slice.len()
            invariant
                i <= pat_slice.len(),
                pat@ =~= pat_slice@.take(i as int),
            decreases pat_slice.len() - i,
        {
            pat.push(pat_slice[i]);
            proof {
                assert(pat_slice@.take(i + 1) =~= pat_slice@.take(i as int).push(
                    pat_slice@[i as int],
                ));
            }
            i = i + 1;
        }
        proof {
            assert(pat@ =~= pat_slice@);
        }
        Ok(SeqFilter::new(start, pat))
    }

    /// The word must reach past the pattern and carry it at the offset.
    pub fn check(&self, word: &[char]) -> (r: bool)
        ensures
            r == filter_matches(self@, word@),
    {
        if word.len() < self.start || word.len() - self.start < self.pat.len() {
            return false;
        }
        let mut i: usize = 0;
        while i < self.pat.len()
            invariant
                i <= self.pat@.len(),
                word@.len() <= usize::MAX,
                self.start + self.pat@.len() <= word@.len(),
                forall|k: int| 0 <= k < i ==> word@[self.start + k] == self.pat@[k],
            decreases self.pat.len() - i,
        {
            if word[self.start + i] != self.pat[i] {
                return false;
            }
            i = i + 1;
        }
        true
    }
}

/// The non-wildcard characters of folded filter text, in order.
pub open spec fn non_wild(s: Seq<char>) -> Seq<char>
    decreases s.len(),
{
    if s.len() == 0 {
        Seq::empty()
    } else if s[0] == '*' {
        non_wild(s.drop_first())
    } else {
        seq![s[0]] + non_wild(s.drop_first())
    }
}

/// How many wildcards (`*`) folded filter text holds.
pub open spec fn wild_count(s: Seq<char>) -> nat
    decreases s.len(),
{
    if s.len() == 0 {
        0
    } else if s[0] == '*' {
        1 + wild_count(s.drop_first())
    } else {
        wild_count(s.drop_first())
    }
}

/// How match-filter text parses: the text is case-folded, `*` counts as a
/// wildcard, every other character raises its required tally.  Always
/// succeeds.
pub open spec fn match_parse(s: Seq<char>) -> FilterModel {
    FilterModel::Match { req: non_wild(fold_lower(s)), wild: wild_count(fold_lower(s)) }
}

proof fn lemma_tally_snoc(s: Seq<char>, x: char)
    ensures
        non_wild(s.push(x)) == if x == '*' {
            non_wild(s)
        } else {
            non_wild(s).push(x)
        },
        wild_count(s.push(x)) == wild_count(s) + if x == '*' {
            1int
        } else {
            0int
        },
    decreases s.len(),
{
    if s.len() == 0 {
        assert(s.push(x).drop_first() =~= Seq::<char>::empty());
        assert(s.push(x)[0] == x);
        assert(wild_count(Seq::<char>::empty()) == 0);
        assert(non_wild(Seq::<char>::empty()) =~= Seq::<char>::empty());
        if x != '*' {
            assert(seq![x] + non_wild(Seq::<char>::empty()) =~= Seq::<char>::empty().push(x));
        }
    } else {
        lemma_tally_snoc(s.drop_first(), x);
        assert(s.push(x).drop_first() =~= s.drop_first().push(x));
        assert(s.push(x)[0] == s[0]);
        if s[0] != '*' && x != '*' {
            assert(seq![s[0]] + non_wild(s.drop_first()).push(x) =~= (seq![s[0]] + non_wild(
                s.drop_first(),
            )).push(x));
        }
    }
}

/// A character-multiset match filter with wildcards.
#[derive(Debug)]
pub struct MatchFilter {
    pub chars: Vec<char>,
    pub wildcards: usize,
}

impl View for MatchFilter {
    type V = FilterModel;

    open spec fn view(&self) -> FilterModel {
        FilterModel::Match { req: self.chars@, wild: self.wildcards as nat }
    }
}

impl MatchFilter {
    pub fn new(chars: Vec<char>, wildcards: usize) -> (r: Self)
        ensures
            r.chars@ == chars@,
            r.wildcards == wildcards,
    {
        Self { chars, wildcards }
    }

    /// Parses match-filter text; any text parses, as `match_parse` says.
    pub fn from_str(s: &[char]) -> (r: Result<Self, FilterParseError>)
        ensures
            r matches Ok(f) && f@ == match_parse(s@),
    {
        let folded = fold_chars(s);
        let n = folded.len();
        let mut chars: Vec<char> = Vec::new();
        let mut wildcards: usize = 0;
        let mut j: usize = 0;
        while j < n
            invariant
                j <= n,
                n == folded@.len(),
                folded@ == fold_lower(s@),
                chars@ == non_wild(folded@.take(j as int)),
                wildcards == wild_count(folded@.take(j as int)),
                wildcards <= j,
            decreases n - j,
        {
            proof {
                lemma_tally_snoc(folded@.take(j as int), folded@[j as int]);
                assert(folded@.take(j + 1) =~= folded@.take(j as int).push(folded@[j as int]));
            }
            if folded[j] == '*' {
                wildcards = wildcards + 1;
            } else {
                chars.push(folded[j]);
            }
            j = j + 1;
        }
        proof {
            assert(folded@.take(j as int) =~= folded@);
        }
        Ok(MatchFilter::new(chars, wildcards))
    }

    /// Walks the word, consuming required occurrences first, wildcards next;
    /// rejects as soon as a character can consume neither.
    pub fn check(&self, word: &[char]) -> (r: bool)
        ensures
            r == filter_matches(self@, word@),
    {
        let mut remaining: Vec<char> = vstd::slice::slice_to_vec(self.chars.as_slice());
        let mut wild: usize = self.wildcards;
        let n = word.len();
        proof {
            assert(word@.skip(0) =~= word@);
        }
        let mut i: usize = 0;
        while i < n
            invariant
                i <= n,
                n == word@.len(),
                match_consumes(word@.skip(i as int), remaining@, wild as nat) == match_consumes(
                    word@,
                    self.chars@,
                    self.wildcards as nat,
                ),
            decreases n - i,
        {
            let c = word[i];
            proof {
                assert(word@.skip(i as int)[0] == word@[i as int]);
                assert(word@.skip(i as int).drop_first() =~= word@.skip(i + 1));
            }
            let m = remaining.len();
            let mut j: usize = 0;
            while j < m && remaining[j] != c
                invariant
                    j <= m,
                    m == remaining@.len(),
                    forall|k: int| 0 <= k < j ==> remaining@[k] != c,
                decreases m - j,
            {
                j = j + 1;
            }
            if j < m {
                proof {
                    assert(remaining@.contains(c)) by {
                        assert(remaining@[j as int] == c);
                    }
                    lemma_remove_one_at(remaining@, c, j as int);
                }
                remaining.remove(j);
            } else {
                proof {
                    assert(!remaining@.contains(c));
                }
                if wild > 0 {
                    wild = wild - 1;
                } else {
                    return false;
                }
            }
            i = i + 1;
        }
        proof {
            assert(word@.skip(n as int) =~= Seq::<char>::empty());
        }
        true
    }
}

/// Removing the first occurrence of a character found at position `j`
/// removes exactly that position.
proof fn lemma_remove_one_at(s: Seq<char>, c: char, j: int)
    requires
        0 <= j < s.len(),
        s[j] == c,
        forall|k: int| 0 <= k < j ==> s[k] != c,
    ensures
        remove_one(s, c) == s.remove(j),
    decreases j,
{
    if j == 0 {
        assert(s.drop_first() =~= s.remove(0));
    } else {
        assert(s[0] != c);
        assert forall|k: int| 0 <= k < j - 1 implies s.drop_first()[k] != c by {
            assert(s[k + 1] != c);
        }
        assert(s.drop_first()[j - 1] == c);
        lemma_remove_one_at(s.drop_first(), c, j - 1);
        assert(seq![s[0]] + s.drop_first().remove(j - 1) =~= s.remove(j));
    }
}

/// A filter: one of the three predicate kinds over a word.
#[derive(Debug)]
pub enum Filter {
    Match(MatchFilter),
    Length(LenFilter),
    Sequence(SeqFilter),
}

impl View for Filter {
    type V = FilterModel;

    open spec fn view(&self) -> FilterModel {
        match self {
            Filter::Match(f) => f@,
            Filter::Length(f) => f@,
            Filter::Sequence(f) => f@,
        }
    }
}

impl Filter {
    /// Whether the word satisfies this filter.
    pub fn check(&self, word: &[char]) -> (r: bool)
        ensures
            r == filter_matches(self@, word@),
    {
        match self {
            Filter::Match(f) => f.check(word),
            Filter::Length(f) => f.check(word),
            Filter::Sequence(f) => f.check(word),
        }
    }
}

/// How often a character occurs in a text.
pub open spec fn char_count(s: Seq<char>, c: char) -> nat
    decreases s.len(),
{
    if s.len() == 0 {
        0
    } else {
        (if s[0] == c {
            1nat
        } else {
            0nat
        }) + char_count(s.drop_first(), c)
    }
}

proof fn lemma_char_count_contains(s: Seq<char>, c: char)
    ensures
        char_count(s, c) > 0 <==> s.contains(c),
    decreases s.len(),
{
    if s.len() > 0 {
        lemma_char_count_contains(s.drop_first(), c);
        if s.contains(c) {
            let k = choose|k: int| 0 <= k < s.len() && s[k] == c;
            if k > 0 {
                assert(s.drop_first()[k - 1] == c);
            }
        }
        if s.drop_first().contains(c) {
            let k = choose|k: int| 0 <= k < s.drop_first().len() && s.drop_first()[k] == c;
            assert(s[k + 1] == c);
        }
    }
}

proof fn lemma_remove_one_counts(s: Seq<char>, c: char, d: char)
    requires
        s.contains(c),
    ensures
        char_count(remove_one(s, c), d) == char_count(s, d) - if d == c {
            1int
        } else {
            0int
        },
    decreases s.len(),
{
    lemma_char_count_contains(s, c);
    if s[0] == c {
    } else {
        assert(s.drop_first().contains(c)) by {
            let k = choose|k: int| 0 <= k < s.len() && s[k] == c;
            assert(k > 0);
            assert(s.drop_first()[k - 1] == c);
        }
        lemma_remove_one_counts(s.drop_first(), c, d);
        let tail = remove_one(s.drop_first(), c);
        assert(remove_one(s, c) == seq![s[0]] + tail);
        assert((seq![s[0]] + tail).drop_first() =~= tail);
        assert((seq![s[0]] + tail)[0] == s[0]);
    }
}

/// Without wildcards, a match filter accepts exactly the words whose
/// character multiset is contained in the filter's required tally: no more
/// occurrences of any character than the filter text holds.
pub proof fn lemma_match_without_wildcards(w: Seq<char>, req: Seq<char>)
    ensures
        match_consumes(w, req, 0) <==> (forall|c: char|
            char_count(w, c) <= char_count(req, c)),
    decreases w.len(),
{
    if w.len() == 0 {
        assert(forall|c: char| char_count(w, c) == 0);
    } else {
        let c0 = w[0];
        assert(char_count(w, c0) > 0);
        lemma_char_count_contains(req, c0);
        if req.contains(c0) {
            lemma_match_without_wildcards(w.drop_first(), remove_one(req, c0));
            assert forall|c: char|
                char_count(w.drop_first(), c) == char_count(w, c) - (if c == c0 {
                    1int
                } else {
                    0int
                }) by {}
            assert forall|c: char| true implies char_count(remove_one(req, c0), c) == char_count(
                req,
                c,
            ) - (if c == c0 {
                1int
            } else {
                0int
            }) by {
                lemma_remove_one_counts(req, c0, c);
            }
            if match_consumes(w, req, 0) {
                assert forall|c: char| char_count(w, c) <= char_count(req, c) by {
                    assert(char_count(w.drop_first(), c) <= char_count(remove_one(req, c0), c));
                }
            }
            if forall|c: char| char_count(w, c) <= char_count(req, c) {
                assert forall|c: char|
                    char_count(w.drop_first(), c) <= char_count(remove_one(req, c0), c) by {
                    assert(char_count(w, c) <= char_count(req, c));
                }
            }
        } else {
            assert(char_count(req, c0) == 0);
            assert(!match_consumes(w, req, 0));
            assert(!(char_count(w, c0) <= char_count(req, c0)));
        }
    }
}

} // verus!
