//! Commands: one input line parsed into an ordered list of filters, with
//! history back-references into the previous command, and the streaming,
//! order-preserving evaluation of a command over the word corpus.
use std::rc::Rc;
use vstd::prelude::*;
use vstd::string::StringExecFns;

use crate::filters::{
    filter_matches, len_parse, match_parse, seq_parse, Filter, FilterModel, LenFilter, MatchFilter,
    SeqFilter,
};
use crate::text::{
    decimal_value, literal_digits, parses_to_usize, split_tokens, str_to_chars, tokens_of,
    lemma_tokens_from_props,
};

verus! {

/// Why a command line was rejected.
#[derive(Clone, Copy, Debug, PartialEq, Eq)]
pub enum CommandErrorKind {
    /// What follows `%` is neither `%` nor a `usize` decimal literal.
    BadReference,
    /// A back-reference was used while no previous command exists.
    NoHistory,
    /// The referenced index is not below the previous command's filter count.
    ReferenceOutOfRange,
}

pub open spec fn command_kind_description(k: CommandErrorKind) -> Seq<char> {
    match k {
        CommandErrorKind::BadReference => "unable to parse history reference"@,
        CommandErrorKind::NoHistory => "history reference without prior command"@,
        CommandErrorKind::ReferenceOutOfRange => (
        "invalid history reference (index out of bounds)")@,
    }
}

/// A structured reason for a command-line parse failure, with the token
/// that caused it.
#[derive(Debug)]
pub struct CommandParseError {
    pub kind: CommandErrorKind,
    pub token: Vec<char>,
}

impl CommandParseError {
    pub fn new(kind: CommandErrorKind, token: Vec<char>) -> (r: CommandParseError)
        ensures
            r.kind == kind,
            r.token@ == token@,
    {
        CommandParseError { kind, token }
    }

    /// A human-readable description of the failure; the offending token is
    /// in `token`.
    pub fn description(&self) -> (r: String)
        ensures
            r@ == command_kind_description(self.kind),
    {
        match self.kind {
            CommandErrorKind::BadReference => String::from_str("unable to parse history reference"),
            CommandErrorKind::NoHistory => String::from_str(
                "history reference without prior command",
            ),
            CommandErrorKind::ReferenceOutOfRange => String::from_str(
                "invalid history reference (index out of bounds)",
            ),
        }
    }
}

/// What one token contributes to a command: a freshly parsed filter, or
/// the reuse of the previous command's filter at some index.
pub enum TokenResolution {
    Fresh(FilterModel),
    Reused(int),
}

pub open spec fn reused_index(tr: TokenResolution) -> int {
    match tr {
        TokenResolution::Reused(i) => i,
        _ => -1,
    }
}

/// How one token classifies, in the grammar's priority order: a `%` token
/// is a back-reference (`%%` names the token's own position); any other
/// token is tried as a sequence filter, then a length filter, then the
/// always-succeeding match filter.
pub open spec fn classify_token(
    t: Seq<char>,
    pos: int,
    last: Option<Seq<FilterModel>>,
) -> Result<TokenResolution, CommandErrorKind>
    recommends
        t.len() > 0,
{
    if t.len() > 0 && t[0] == '%' {
        let rest = t.drop_first();
        let self_ref = rest.len() == 1 && rest[0] == '%';
        if !self_ref && !parses_to_usize(rest) {
            Err(CommandErrorKind::BadReference)
        } else {
            let idx: int = if self_ref {
                pos
            } else {
                decimal_value(literal_digits(rest)) as int
            };
            match last {
                None => Err(CommandErrorKind::NoHistory),
                Some(lf) => if idx >= lf.len() {
                    Err(CommandErrorKind::ReferenceOutOfRange)
                } else {
                    Ok(TokenResolution::Reused(idx))
                },
            }
        }
    } else {
        if seq_parse(t) is Ok {
            Ok(TokenResolution::Fresh(seq_parse(t)->Ok_0))
        } else if len_parse(t) is Ok {
            Ok(TokenResolution::Fresh(len_parse(t)->Ok_0))
        } else {
            Ok(TokenResolution::Fresh(match_parse(t)))
        }
    }
}

/// The filter a token resolution stands for.
pub open spec fn resolve(tr: TokenResolution, last: Option<Seq<FilterModel>>) -> FilterModel {
    match tr {
        TokenResolution::Fresh(m) => m,
        TokenResolution::Reused(i) => last.unwrap()[i],
    }
}

/// How a token list parses, left to right: the first failing token aborts
/// the whole command with its error kind and the token itself.
pub open spec fn parse_tokens_spec(
    toks: Seq<Seq<char>>,
    pos: int,
    last: Option<Seq<FilterModel>>,
) -> Result<Seq<TokenResolution>, (CommandErrorKind, Seq<char>)>
    decreases toks.len(),
{
    if toks.len() == 0 {
        Ok(Seq::empty())
    } else {
        match classify_token(toks[0], pos, last) {
            Err(k) => Err((k, toks[0])),
            Ok(tr) => match parse_tokens_spec(toks.drop_first(), pos + 1, last) {
                Err(e) => Err(e),
                Ok(rest) => Ok(seq![tr] + rest),
            },
        }
    }
}

/// How a whole line parses against the previous command's filter list.
pub open spec fn parse_spec(line: Seq<char>, last: Option<Seq<FilterModel>>) -> Result<
    Seq<FilterModel>,
    (CommandErrorKind, Seq<char>),
> {
    match parse_tokens_spec(tokens_of(line), 0, last) {
        Ok(trs) => Ok(trs.map_values(|tr: TokenResolution| resolve(tr, last))),
        Err(e) => Err(e),
    }
}

/// Whether a word satisfies every filter of a command.
pub open spec fn cmd_matches(cmd: Seq<FilterModel>, w: Seq<char>) -> bool {
    forall|i: int| 0 <= i < cmd.len() ==> filter_matches(#[trigger] cmd[i], w)
}

/// The words of the corpus, in corpus order, that satisfy every filter of
/// the command.
pub open spec fn matching_words(cmd: Seq<FilterModel>, corpus: Seq<Seq<char>>) -> Seq<Seq<char>> {
    corpus.filter(|w: Seq<char>| cmd_matches(cmd, w))
}

/// Over an empty corpus every command selects nothing, and a command with
/// no filters selects every word of any corpus.
pub proof fn lemma_trivial_queries(cmd: Seq<FilterModel>, corpus: Seq<Seq<char>>)
    ensures
        matching_words(cmd, Seq::<Seq<char>>::empty()) == Seq::<Seq<char>>::empty(),
        cmd.len() == 0 ==> matching_words(cmd, corpus) == corpus,
    decreases corpus.len(),
{
    reveal(Seq::filter);
    if cmd.len() == 0 && corpus.len() > 0 {
        lemma_trivial_queries(cmd, corpus.drop_last());
        assert(matching_words(cmd, corpus) =~= corpus);
    }
}

/// Relies on `Rc::clone`: the clone is a handle to the same allocation,
/// so it equals the original.
#[verifier::external_body]
fn rc_share(f: &Rc<Filter>) -> (r: Rc<Filter>)
    ensures
        r == *f,
{
    Rc::clone(f)
}

/// An ordered list of filters parsed from one input line; a word must
/// satisfy all of them.  Filters are shared with later commands that
/// back-reference them.
#[derive(Debug)]
pub struct Command {
    pub filters: Vec<Rc<Filter>>,
}

impl View for Command {
    type V = Seq<FilterModel>;

    open spec fn view(&self) -> Seq<FilterModel> {
        self.filters@.map_values(|f: Rc<Filter>| f@)
    }
}

pub open spec fn last_model(last: Option<&Command>) -> Option<Seq<FilterModel>> {
    match last {
        Some(c) => Some(c@),
        None => None,
    }
}

/// Every reused position holds the previous command's very filter handle.
pub open spec fn shares_reused(
    filters: Seq<Rc<Filter>>,
    trs: Seq<TokenResolution>,
    prev: Seq<Rc<Filter>>,
) -> bool {
    forall|k: int|
        0 <= k < trs.len() && trs[k] is Reused ==> #[trigger] filters[k] == prev[reused_index(
            trs[k],
        )]
}

proof fn lemma_parse_tokens_step(toks: Seq<Seq<char>>, pos: int, last: Option<Seq<FilterModel>>)
    requires
        toks.len() > 0,
    ensures
        parse_tokens_spec(toks, pos, last) == (match classify_token(toks[0], pos, last) {
            Err(k) => Err::<Seq<TokenResolution>, (CommandErrorKind, Seq<char>)>((k, toks[0])),
            Ok(tr) => match parse_tokens_spec(toks.drop_first(), pos + 1, last) {
                Err(e) => Err(e),
                Ok(rest) => Ok(seq![tr] + rest),
            },
        }),
{
}

impl Command {
    pub fn new(filters: Vec<Rc<Filter>>) -> (r: Self)
        ensures
            r.filters@ == filters@,
    {
        Self { filters }
    }

    /// Parses one line into a command, resolving `%` back-references
    /// against the previous command.  The result is exactly what
    /// `parse_spec` says; a reused position holds the previous command's
    /// very filter, not a copy.
    pub fn parse(cstr: &str, last: Option<&Command>) -> (r: Result<Command, CommandParseError>)
        ensures
            r is Ok <==> parse_spec(cstr@, last_model(last)) is Ok,
            r matches Ok(c) ==> c@ == parse_spec(cstr@, last_model(last))->Ok_0,
            r matches Err(e) ==> e.kind == parse_spec(cstr@, last_model(last))->Err_0.0
                && e.token@ == parse_spec(cstr@, last_model(last))->Err_0.1,
            r matches Ok(c) ==> (last matches Some(lc) ==> shares_reused(
                c.filters@,
                parse_tokens_spec(tokens_of(cstr@), 0, last_model(last))->Ok_0,
                lc.filters@,
            )),
    {
        let line_chars = str_to_chars(cstr);
        let toks = split_tokens(line_chars.as_slice());
        let ghost lastm = last_model(last);
        let ghost full_toks = tokens_of(cstr@);
        proof {
            lemma_tokens_from_props(cstr@, 0);
        }
        let mut filters: Vec<Rc<Filter>> = Vec::new();
        let ghost mut trs_acc: Seq<TokenResolution> = Seq::empty();
        let n = toks.len();
        proof {
            assert(full_toks.skip(0) =~= full_toks);
            if parse_tokens_spec(full_toks, 0, lastm) is Ok {
                assert(trs_acc + parse_tokens_spec(full_toks, 0, lastm)->Ok_0 =~= parse_tokens_spec(
                    full_toks,
                    0,
                    lastm,
                )->Ok_0);
            }
        }
        let mut i: usize = 0;
        while i < n
            invariant
                i <= n,
                n == toks@.len(),
                n == full_toks.len(),
                full_toks == tokens_of(cstr@),
                lastm == last_model(last),
                forall|k: int| 0 <= k < n ==> #[trigger] toks@[k]@ == full_toks[k],
                forall|k: int| 0 <= k < n ==> #[trigger] full_toks[k].len() >= 1,
                trs_acc.len() == i,
                filters@.len() == i,
                (match parse_tokens_spec(full_toks.skip(i as int), i as int, lastm) {
                    Ok(rest) => parse_tokens_spec(full_toks, 0, lastm) == Ok::<
                        Seq<TokenResolution>,
                        (CommandErrorKind, Seq<char>),
                    >(trs_acc + rest),
                    Err(e) => parse_tokens_spec(full_toks, 0, lastm) == Err::<
                        Seq<TokenResolution>,
                        (CommandErrorKind, Seq<char>),
                    >(e),
                }),
                forall|k: int|
                    0 <= k < i ==> #[trigger] filters@[k]@ == resolve(trs_acc[k], lastm),
                last matches Some(plc) ==> shares_reused(filters@, trs_acc, plc.filters@),
            decreases n - i,
        {
            let t = &toks[i];
            let ghost gt = full_toks[i as int];
            let ghost trs_old = trs_acc;
            let ghost filters_old = filters@;
            proof {
                assert(t@ == gt);
                assert(full_toks.skip(i as int)[0] == full_toks[i as int]);
                assert(full_toks.skip(i as int).drop_first() =~= full_toks.skip(i + 1));
                lemma_parse_tokens_step(full_toks.skip(i as int), i as int, lastm);
            }
            let ts = t.as_slice();
            if ts[0] == '%' {
                let rest = &ts[1..ts.len()];
                proof {
                    assert(rest@ =~= gt.drop_first());
                }
                let self_ref = rest.len() == 1 && rest[0] == '%';
                let idx_opt: Option<usize> = if self_ref {
                    Some(i)
                } else {
                    crate::text::parse_usize(rest)
                };
                let idx = match idx_opt {
                    Some(idx) => idx,
                    None => {
                        proof {
                            assert(classify_token(gt, i as int, lastm) == Err::<
                                TokenResolution,
                                CommandErrorKind,
                            >(CommandErrorKind::BadReference));
                            assert(parse_tokens_spec(full_toks, 0, lastm) == Err::<
                                Seq<TokenResolution>,
                                (CommandErrorKind, Seq<char>),
                            >((CommandErrorKind::BadReference, gt)));
                        }
                        return Err(
                            CommandParseError::new(
                                CommandErrorKind::BadReference,
                                vstd::slice::slice_to_vec(ts),
                            ),
                        );
                    },
                };
                let lc = match last {
                    Some(lc) => lc,
                    None => {
                        proof {
                            assert(classify_token(gt, i as int, lastm) == Err::<
                                TokenResolution,
                                CommandErrorKind,
                            >(CommandErrorKind::NoHistory));
                            assert(parse_tokens_spec(full_toks, 0, lastm) == Err::<
                                Seq<TokenResolution>,
                                (CommandErrorKind, Seq<char>),
                            >((CommandErrorKind::NoHistory, gt)));
                        }
                        return Err(
                            CommandParseError::new(
                                CommandErrorKind::NoHistory,
                                vstd::slice::slice_to_vec(ts),
                            ),
                        );
                    },
                };
                if idx >= lc.filters.len() {
                    proof {
                        assert(lc@.len() == lc.filters@.len());
                        assert(classify_token(gt, i as int, lastm) == Err::<
                            TokenResolution,
                            CommandErrorKind,
                        >(CommandErrorKind::ReferenceOutOfRange));
                        assert(parse_tokens_spec(full_toks, 0, lastm) == Err::<
                            Seq<TokenResolution>,
                            (CommandErrorKind, Seq<char>),
                        >((CommandErrorKind::ReferenceOutOfRange, gt)));
                    }
                    return Err(
                        CommandParseError::new(
                            CommandErrorKind::ReferenceOutOfRange,
                            vstd::slice::slice_to_vec(ts),
                        ),
                    );
                }
                let f = rc_share(&lc.filters[idx]);
                proof {
                    assert(last is Some && lc == last->Some_0);
                    assert(lc@.len() == lc.filters@.len());
                    assert(classify_token(gt, i as int, lastm) == Ok::<
                        TokenResolution,
                        CommandErrorKind,
                    >(TokenResolution::Reused(idx as int)));
                    assert(resolve(TokenResolution::Reused(idx as int), lastm) == lc@[idx as int]);
                    assert(lc@[idx as int] == lc.filters@[idx as int]@);
                    assert(f == lc.filters@[idx as int]);
                }
                filters.push(f);
                proof {
                    trs_acc = trs_old.push(TokenResolution::Reused(idx as int));
                    assert(reused_index(TokenResolution::Reused(idx as int)) == idx as int);
                }
            } else {
                let fil: Filter = match SeqFilter::from_str(ts) {
                    Ok(f) => Filter::Sequence(f),
                    Err(_) => match LenFilter::from_str(ts) {
                        Ok(f) => Filter::Length(f),
                        Err(_) => match MatchFilter::from_str(ts) {
                            Ok(f) => Filter::Match(f),
                            // never reached: match-filter text always parses
                            Err(_) => Filter::Match(MatchFilter::new(Vec::new(), 0)),
                        },
                    },
                };
                proof {
                    assert(classify_token(gt, i as int, lastm) == Ok::<
                        TokenResolution,
                        CommandErrorKind,
                    >(TokenResolution::Fresh(fil@)));
                }
                filters.push(Rc::new(fil));
                proof {
                    trs_acc = trs_old.push(TokenResolution::Fresh(fil@));
                }
            }
            proof {
                let tr = trs_acc[i as int];
                assert(trs_acc == trs_old.push(tr));
                assert(classify_token(gt, i as int, lastm) == Ok::<
                    TokenResolution,
                    CommandErrorKind,
                >(tr));
                assert(filters@[i as int]@ == resolve(tr, lastm));
                if parse_tokens_spec(full_toks.skip(i + 1), i + 1, lastm) is Ok {
                    let rest2 = parse_tokens_spec(full_toks.skip(i + 1), i + 1, lastm)->Ok_0;
                    assert(parse_tokens_spec(full_toks.skip(i as int), i as int, lastm) == Ok::<
                        Seq<TokenResolution>,
                        (CommandErrorKind, Seq<char>),
                    >(seq![tr] + rest2));
                    assert(trs_old + (seq![tr] + rest2) =~= trs_acc + rest2);
                    assert(parse_tokens_spec(full_toks, 0, lastm) == Ok::<
                        Seq<TokenResolution>,
                        (CommandErrorKind, Seq<char>),
                    >(trs_acc + rest2));
                } else {
                    let e = parse_tokens_spec(full_toks.skip(i + 1), i + 1, lastm)->Err_0;
                    assert(parse_tokens_spec(full_toks.skip(i as int), i as int, lastm) == Err::<
                        Seq<TokenResolution>,
                        (CommandErrorKind, Seq<char>),
                    >(e));
                    assert(parse_tokens_spec(full_toks, 0, lastm) == Err::<
                        Seq<TokenResolution>,
                        (CommandErrorKind, Seq<char>),
                    >(e));
                }
                assert(filters@ == filters_old.push(filters@[i as int]));
                assert forall|k: int|
                    0 <= k < i + 1 implies #[trigger] filters@[k]@ == resolve(trs_acc[k], lastm) by {
                    if k < i {
                        assert(filters@[k] == filters_old[k]);
                        assert(filters_old[k]@ == resolve(trs_old[k], lastm));
                    }
                }
                if last is Some {
                    let plc = last->Some_0;
                    assert(shares_reused(filters@, trs_acc, plc.filters@)) by {
                        assert forall|k: int|
                            0 <= k < trs_acc.len() && trs_acc[k] is Reused implies #[trigger] filters@[k]
                            == plc.filters@[reused_index(trs_acc[k])] by {
                            if k < i {
                                assert(trs_acc[k] == trs_old[k]);
                                assert(filters@[k] == filters_old[k]);
                                assert(trs_old[k] is Reused ==> filters_old[k] == plc.filters@[
                                    reused_index(trs_old[k])]);
                            }
                        }
                    }
                }
            }
            i = i + 1;
        }
        proof {
            assert(full_toks.skip(n as int) =~= Seq::<Seq<char>>::empty());
            assert(parse_tokens_spec(Seq::empty(), n as int, lastm) == Ok::<
                Seq<TokenResolution>,
                (CommandErrorKind, Seq<char>),
            >(Seq::empty()));
            assert(trs_acc + Seq::<TokenResolution>::empty() =~= trs_acc);
        }
        let c = Command::new(filters);
        proof {
            assert(c@ =~= trs_acc.map_values(|tr: TokenResolution| resolve(tr, lastm)));
        }
        Ok(c)
    }

    /// Whether the word satisfies every filter, tested in list order with a
    /// short circuit at the first failure.
    pub fn check_word(&self, word: &[char]) -> (r: bool)
        ensures
            r == cmd_matches(self@, word@),
    {
        let n = self.filters.len();
        let mut i: usize = 0;
        while i < n
            invariant
                i <= n,
                n == self.filters@.len(),
                forall|k: int| 0 <= k < i ==> filter_matches(#[trigger] self@[k], word@),
            decreases n - i,
        {
            if !self.filters[i].check(word) {
                assert(!filter_matches(self@[i as int], word@));
                return false;
            }
            i = i + 1;
        }
        true
    }

    /// Begins a streaming evaluation of this command over the corpus.
    pub fn result<'a>(&'a self, words: &'a [Vec<char>]) -> (r: CommandResult<'a>)
        ensures
            r.command == self,
            r.words@ == words@,
            r.pos == 0,
    {
        CommandResult { command: self, words, pos: 0 }
    }
}

/// A lazy, forward-only pass over the corpus: each `next` call yields the
/// next word, in corpus order, that satisfies the command, examining one
/// candidate at a time.
pub struct CommandResult<'a> {
    pub command: &'a Command,
    pub words: &'a [Vec<char>],
    pub pos: usize,
}

impl<'a> CommandResult<'a> {
    /// The next matching word after the current position, advancing past
    /// it; `None` once the corpus is exhausted.
    pub fn next(&mut self) -> (r: Option<&'a Vec<char>>)
        ensures
            final(self).command == old(self).command,
            final(self).words == old(self).words,
            old(self).pos <= final(self).pos,
            r matches Some(w) ==> {
                &&& old(self).pos < final(self).pos <= old(self).words@.len()
                &&& *w == old(self).words@[final(self).pos - 1]
                &&& cmd_matches(old(self).command@, w@)
                &&& forall|k: int|
                    old(self).pos <= k < final(self).pos - 1 ==> !cmd_matches(
                        old(self).command@,
                        #[trigger] old(self).words@[k]@,
                    )
            },
            r is None ==> {
                &&& final(self).pos >= old(self).words@.len()
                &&& forall|k: int|
                    old(self).pos <= k < old(self).words@.len() ==> !cmd_matches(
                        old(self).command@,
                        #[trigger] old(self).words@[k]@,
                    )
            },
    {
        let ws: &'a [Vec<char>] = self.words;
        if self.pos >= ws.len() {
            return None;
        }
        while self.pos < ws.len()
            invariant
                self.command == old(self).command,
                self.words == old(self).words,
                ws == old(self).words,
                old(self).pos <= self.pos <= ws@.len(),
                forall|k: int|
                    old(self).pos <= k < self.pos ==> !cmd_matches(
                        old(self).command@,
                        #[trigger] ws@[k]@,
                    ),
            decreases ws@.len() - self.pos,
        {
            let w: &'a Vec<char> = &ws[self.pos];
            let matched = self.command.check_word(w.as_slice());
            self.pos = self.pos + 1;
            if matched {
                return Some(w);
            }
        }
        None
    }
}

} // verus!
