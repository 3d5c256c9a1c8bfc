use vstd::prelude::*;

use crate::char_tokenizer::{is_ws_char, CharTokenizer};
use crate::error::ReadError;
use crate::lex;
use crate::reader::JsonHandler;
use crate::token::{tokens_view, SpecToken, Token};
use rayon::iter::{IntoParallelRefIterator, ParallelIterator};

verus! {

/// The string-tracking state of the shard splitter's scan: outside any
/// string literal, inside one, or inside one just after a backslash.
#[derive(Clone, Copy, Debug, PartialEq)]
pub enum ScanState {
    Outside,
    Inside,
    Escape,
}

/// One step of the string-tracking machine.
pub open spec fn scan_step(st: ScanState, c: char) -> ScanState {
    match st {
        ScanState::Outside => if c == '"' {
            ScanState::Inside
        } else {
            ScanState::Outside
        },
        ScanState::Inside => if c == '"' {
            ScanState::Outside
        } else if c == '\\' {
            ScanState::Escape
        } else {
            ScanState::Inside
        },
        ScanState::Escape => ScanState::Inside,
    }
}

/// The machine's state just before position `i`.
pub open spec fn scan_state_at(s: Seq<char>, i: int) -> ScanState
    decreases i,
{
    if i <= 0 {
        ScanState::Outside
    } else {
        scan_step(scan_state_at(s, i - 1), s[i - 1])
    }
}

/// The characters a shard boundary may sit on.
pub open spec fn is_cut_char(c: char) -> bool {
    lex::is_ws(c) || lex::is_structural(c)
}

/// A legal cut point: a whitespace or structural character outside any
/// string literal (and outside any escape pair).
pub open spec fn legal_cut(s: Seq<char>, i: int) -> bool {
    &&& 0 <= i < s.len()
    &&& scan_state_at(s, i) is Outside
    &&& is_cut_char(s[i])
}

pub open spec fn dist(a: int, b: int) -> int {
    if a >= b {
        a - b
    } else {
        b - a
    }
}

/// Whether position `i` beats the candidate `cand` for the ideal target
/// offset `t`: any position beats none, otherwise strictly smaller distance
/// wins (so on ties the earliest found stays).
pub open spec fn improves(i: int, cand: Option<int>, t: int) -> bool {
    match cand {
        Option::None => true,
        Option::Some(c) => dist(i, t) < dist(c, t),
    }
}

/// The best legal cut among positions before `upto` for target `t`.
pub open spec fn best_cut_upto(s: Seq<char>, upto: int, t: int) -> Option<int>
    decreases upto,
{
    if upto <= 0 {
        Option::None
    } else {
        let prev = best_cut_upto(s, upto - 1, t);
        if legal_cut(s, upto - 1) && improves(upto - 1, prev, t) {
            Option::Some(upto - 1)
        } else {
            prev
        }
    }
}

/// The ideal target offset of boundary `p` when splitting into `n` shards.
pub open spec fn cut_target(s: Seq<char>, n: int, p: int) -> int {
    (s.len() as int / n) * (p + 1)
}

/// The chosen cut for boundary `p`: the legal cut nearest its target,
/// earliest on ties.
pub open spec fn spec_cut(s: Seq<char>, n: int, p: int) -> Option<int> {
    best_cut_upto(s, s.len() as int, cut_target(s, n, p))
}

/// What the splitter's scan returns: the `n - 1` chosen cuts in shard order,
/// or a partition error when some boundary has no legal cut or the chosen
/// cuts are not in order.
pub open spec fn spec_scan(s: Seq<char>, n: int) -> Result<Seq<int>, ReadError> {
    if (forall|p: int| 0 <= p < n - 1 ==> #[trigger] spec_cut(s, n, p) is Some) && (forall|p: int|
        0 <= p < n - 2 ==> (#[trigger] spec_cut(s, n, p))->Some_0 <= spec_cut(s, n, p + 1)->Some_0) {
        Ok(Seq::new((n - 1) as nat, |p: int| spec_cut(s, n, p)->Some_0))
    } else {
        Err(ReadError::Partition)
    }
}

/// The half-open shard ranges the sorted cuts induce, each cut character
/// ending the shard it sits in: contiguous, covering, none overlapping.
pub open spec fn shards_of(s: Seq<char>, cuts: Seq<int>, from: int) -> Seq<Seq<char>>
    decreases cuts.len(),
{
    if cuts.len() == 0 {
        seq![s.subrange(from, s.len() as int)]
    } else {
        seq![s.subrange(from, cuts[0] + 1)] + shards_of(s, cuts.skip(1), cuts[0] + 1)
    }
}

/// Tokenizing the shards independently and joining the token sequences in
/// shard order: the first shard error, in shard order, aborts the whole
/// decode.
pub open spec fn merge_shard_tokens(shards: Seq<Seq<char>>) -> Result<Seq<SpecToken>, ReadError>
    decreases shards.len(),
{
    if shards.len() == 0 {
        Ok(Seq::empty())
    } else {
        match lex::tokens_from(shards[0]) {
            Err(e) => Err(e),
            Ok(ts) => match merge_shard_tokens(shards.skip(1)) {
                Err(e) => Err(e),
                Ok(rest) => Ok(ts + rest),
            },
        }
    }
}

/// The whole sharded lexical pass over `n` shards.
pub open spec fn spec_multi_tokens(s: Seq<char>, n: int) -> Result<Seq<SpecToken>, ReadError> {
    match spec_scan(s, n) {
        Err(e) => Err(e),
        Ok(cuts) => merge_shard_tokens(shards_of(s, cuts, 0)),
    }
}

/// A chosen cut is always a legal cut: the splitter never returns a boundary
/// inside a string literal or an escape pair.
pub proof fn lemma_best_cut_legal(s: Seq<char>, upto: int, t: int)
    ensures
        best_cut_upto(s, upto, t) matches Some(c) ==> legal_cut(s, c),
    decreases upto,
{
    if upto > 0 {
        lemma_best_cut_legal(s, upto - 1, t);
    }
}

/// Shard-splitter safety: whenever the scan succeeds, every boundary it
/// returns sits on a whitespace or structural character outside any string
/// literal and outside any escape pair — never strictly inside one.
pub proof fn lemma_split_safety(s: Seq<char>, n: int)
    requires
        2 <= n,
    ensures
        spec_scan(s, n) matches Ok(cuts) ==> forall|p: int|
            0 <= p < cuts.len() ==> legal_cut(s, #[trigger] cuts[p]),
{
    if spec_scan(s, n) is Ok {
        assert forall|p: int| 0 <= p < n - 1 implies legal_cut(
            s,
            #[trigger] spec_scan(s, n)->Ok_0[p],
        ) by {
            lemma_best_cut_legal(s, s.len() as int, cut_target(s, n, p));
        }
    }
}

/// The shards cover the input exactly: joined in shard order they give back
/// the whole text, no unit omitted or duplicated.
pub proof fn lemma_shards_cover(s: Seq<char>, cuts: Seq<int>, from: int)
    requires
        0 <= from <= s.len(),
        forall|p: int| 0 <= p < cuts.len() ==> 0 <= #[trigger] cuts[p] < s.len(),
        forall|p: int| 0 <= p < cuts.len() - 1 ==> #[trigger] cuts[p] <= cuts[p + 1],
        cuts.len() > 0 ==> from <= cuts[0] + 1,
    ensures
        shards_of(s, cuts, from).flatten() == s.subrange(from, s.len() as int),
    decreases cuts.len(),
{
    if cuts.len() == 0 {
        let whole = shards_of(s, cuts, from);
        assert(whole.drop_first() =~= Seq::<Seq<char>>::empty());
        assert(whole.drop_first().flatten() =~= Seq::<char>::empty());
        assert(whole.first() + Seq::<char>::empty() =~= s.subrange(from, s.len() as int));
    } else {
        lemma_shards_cover(s, cuts.skip(1), cuts[0] + 1);
        let head = s.subrange(from, cuts[0] + 1);
        let rest = shards_of(s, cuts.skip(1), cuts[0] + 1);
        let whole = shards_of(s, cuts, from);
        assert(whole =~= seq![head] + rest);
        assert(whole.first() == head);
        assert(whole.drop_first() =~= rest);
        assert(whole.flatten() == head + rest.flatten());
        assert(head + s.subrange(cuts[0] + 1, s.len() as int) =~= s.subrange(
            from,
            s.len() as int,
        ));
    }
}

pub fn is_structural_char(c: char) -> (b: bool)
    ensures
        b == lex::is_structural(c),
{
    c == '{' || c == '}' || c == '[' || c == ']' || c == ':' || c == ','
}

fn scan_step_exec(st: ScanState, c: char) -> (r: ScanState)
    ensures
        r == scan_step(st, c),
{
    match st {
        ScanState::Outside => if c == '"' {
            ScanState::Inside
        } else {
            ScanState::Outside
        },
        ScanState::Inside => if c == '"' {
            ScanState::Outside
        } else if c == '\\' {
            ScanState::Escape
        } else {
            ScanState::Inside
        },
        ScanState::Escape => ScanState::Inside,
    }
}

fn dist_exec(a: usize, b: usize) -> (r: usize)
    ensures
        r == dist(a as int, b as int),
{
    if a >= b {
        a - b
    } else {
        b - a
    }
}

/// The sharded tokenizer: splits the input into boundary-safe shards,
/// tokenizes each shard independently with the codepoint tokenizer, and
/// joins the token sequences in shard order.
pub struct MultiTokenizer {
    chars: Vec<char>,
}

impl JsonHandler<&str> for MultiTokenizer {
    fn new(data: &str) -> Self {
        MultiTokenizer::new(data)
    }
}

/// The view of a produced shard list.
pub open spec fn shards_view(shards: Seq<Vec<char>>) -> Seq<Seq<char>> {
    shards.map(|i: int, sh: Vec<char>| sh@)
}

/// Whether an independent tokenization result is the one the lexical rules
/// give for a shard.
pub open spec fn shard_result_ok(
    r: Result<Vec<Token>, ReadError>,
    s: Result<Seq<SpecToken>, ReadError>,
) -> bool {
    match r {
        Ok(v) => s matches Ok(ts) && tokens_view(v@) == ts,
        Err(e) => s matches Err(e2) && e2 == e,
    }
}

/// Relies on rayon's indexed parallel iterators: `par_iter().map(..)` over a
/// vector applies the closure to every element, and collecting an indexed
/// parallel iterator into a `Vec` keeps the items in the order of their
/// inputs.  The closure only calls the verified shard tokenizer.
#[verifier::external_body]
fn par_tokenize(shards: &Vec<Vec<char>>) -> (r: Vec<Result<Vec<Token>, ReadError>>)
    ensures
        r@.len() == shards@.len(),
        forall|i: int|
            0 <= i < shards@.len() ==> shard_result_ok(
                #[trigger] r@[i],
                lex::tokens_from(shards@[i]@),
            ),
{
    shards.par_iter().map(|sh| tokenize_shard(sh)).collect()
}

/// One shard tokenized independently by the codepoint tokenizer.
fn tokenize_shard(sh: &Vec<char>) -> (r: Result<Vec<Token>, ReadError>)
    ensures
        shard_result_ok(r, lex::tokens_from(sh@)),
{
    let mut t = CharTokenizer::from_chars(sh.as_slice());
    t.read_tokens()
}

/// An owned copy of `chars[from..to]`.
fn copy_range(chars: &Vec<char>, from: usize, to: usize) -> (r: Vec<char>)
    requires
        from <= to <= chars@.len(),
    ensures
        r@ == chars@.subrange(from as int, to as int),
{
    let mut r: Vec<char> = Vec::new();
    let mut i: usize = from;
    while i < to
        invariant
            from <= i <= to <= chars@.len(),
            r@ =~= chars@.subrange(from as int, i as int),
        decreases to - i,
    {
        r.push(chars[i]);
        i = i + 1;
    }
    proof {
        assert(r@ =~= chars@.subrange(from as int, to as int));
    }
    r
}

impl MultiTokenizer {
    /// The characters of the whole input.
    pub closed spec fn chars_view(&self) -> Seq<char> {
        self.chars@
    }

    pub fn new(data: &str) -> (r: Self)
        ensures
            r.chars_view() == data@,
    {
        let n = data.unicode_len();
        let mut v: Vec<char> = Vec::new();
        let mut i: usize = 0;
        while i < n
            invariant
                i <= n,
                n == data@.len(),
                v@ =~= data@.take(i as int),
            decreases n - i,
        {
            v.push(data.get_char(i));
            i = i + 1;
        }
        proof {
            assert(v@ =~= data@);
        }
        MultiTokenizer { chars: v }
    }

    /// The splitter's scan: one pass over the input, tracking the
    /// string-state machine, greedily keeping for each of the `n - 1` ideal
    /// boundary targets the legal cut nearest to it.  A boundary with no
    /// legal cut, or cuts out of order, is a partition error.
    fn scan(&self, n: usize) -> (r: Result<Vec<usize>, ReadError>)
        requires
            2 <= n,
        ensures
            match spec_scan(self.chars_view(), n as int) {
                Ok(cuts) => r matches Ok(v) && v@.map(|p: int, x: usize| x as int) == cuts,
                Err(e) => r matches Err(e2) && e2 == e,
            },
    {
        let ghost s = self.chars@;
        let len = self.chars.len();
        let l = len / n;
        proof {
            vstd::arithmetic::div_mod::lemma_fundamental_div_mod(len as int, n as int);
            assert((n as int) * (len as int / n as int) <= len as int);
        }
        let mut cand: Vec<Option<usize>> = Vec::new();
        let mut p: usize = 0;
        while p < n - 1
            invariant
                p <= n - 1,
                cand@.len() == p,
                forall|q: int| 0 <= q < p ==> #[trigger] cand@[q] is None,
            decreases n - 1 - p,
        {
            cand.push(Option::None);
            p = p + 1;
        }
        let mut state = ScanState::Outside;
        let mut i: usize = 0;
        while i < len
            invariant
                2 <= n,
                i <= len,
                len == s.len(),
                l == s.len() as int / n as int,
                (n as int) * l <= len as int,
                self.chars@ == s,
                len == self.chars@.len(),
                cand@.len() == n - 1,
                state == scan_state_at(s, i as int),
                forall|q: int|
                    0 <= q < n - 1 ==> cand_matches(
                        #[trigger] cand@[q],
                        best_cut_upto(s, i as int, cut_target(s, n as int, q)),
                    ),
            decreases len - i,
        {
            let c = self.chars[i];
            let legal = match state {
                ScanState::Outside => is_ws_char(c) || is_structural_char(c),
                _ => false,
            };
            proof {
                assert(legal == legal_cut(s, i as int));
            }
            if legal {
                let mut q: usize = 0;
                while q < n - 1
                    invariant
                        2 <= n,
                        i < len,
                        len == s.len(),
                        l == s.len() as int / n as int,
                        (n as int) * l <= len as int,
                        q <= n - 1,
                        cand@.len() == n - 1,
                        legal_cut(s, i as int),
                        forall|q2: int|
                            0 <= q2 < q ==> cand_matches(
                                #[trigger] cand@[q2],
                                best_cut_upto(s, i as int + 1, cut_target(s, n as int, q2)),
                            ),
                        forall|q2: int|
                            q <= q2 < n - 1 ==> cand_matches(
                                #[trigger] cand@[q2],
                                best_cut_upto(s, i as int, cut_target(s, n as int, q2)),
                            ),
                    decreases n - 1 - q,
                {
                    proof {
                        assert((l as int) * ((q + 1) as int) <= (l as int) * (n as int)) by (nonlinear_arith)
                            requires
                                0 <= l,
                                q + 1 <= n,
                        ;
                        assert((l as int) * (n as int) == (n as int) * (l as int)) by (nonlinear_arith);
                    }
                    let t = l * (q + 1);
                    proof {
                        assert(t as int == cut_target(s, n as int, q as int));
                    }
                    let better = match cand[q] {
                        Option::None => true,
                        Option::Some(cq) => dist_exec(i, t) < dist_exec(cq, t),
                    };
                    if better {
                        let ghost cand_pre = cand@;
                        cand.remove(q);
                        cand.insert(q, Option::Some(i));
                        proof {
                            assert(cand@ =~= cand_pre.update(q as int, Option::Some(i)));
                        }
                    }
                    q = q + 1;
                }
            } else {
                proof {
                    assert forall|q2: int| 0 <= q2 < n - 1 implies cand_matches(
                        #[trigger] cand@[q2],
                        best_cut_upto(s, i as int + 1, cut_target(s, n as int, q2)),
                    ) by {
                        assert(best_cut_upto(s, i as int + 1, cut_target(s, n as int, q2))
                            == best_cut_upto(s, i as int, cut_target(s, n as int, q2)));
                    }
                }
            }
            state = scan_step_exec(state, c);
            i = i + 1;
        }
        // every boundary must have found a legal cut, in nondecreasing order
        let mut cuts: Vec<usize> = Vec::new();
        let mut q: usize = 0;
        while q < n - 1
            invariant
                2 <= n,
                q <= n - 1,
                s == self.chars@,
                len == s.len(),
                l == s.len() as int / n as int,
                cand@.len() == n - 1,
                cuts@.len() == q,
                forall|q2: int|
                    0 <= q2 < n - 1 ==> cand_matches(
                        #[trigger] cand@[q2],
                        spec_cut(s, n as int, q2),
                    ),
                forall|q2: int|
                    0 <= q2 < q ==> #[trigger] spec_cut(s, n as int, q2) is Some && cuts@[q2]
                        as int == spec_cut(s, n as int, q2)->Some_0,
                forall|q2: int|
                    0 <= q2 < q - 1 ==> #[trigger] cuts@[q2] <= cuts@[q2 + 1],
            decreases n - 1 - q,
        {
            match cand[q] {
                Option::None => {
                    proof {
                        assert(!(spec_cut(s, n as int, q as int) is Some));
                    }
                    return Err(ReadError::Partition);
                },
                Option::Some(c) => {
                    if q > 0 {
                        if cuts[q - 1] > c {
                            proof {
                                assert(spec_cut(s, n as int, q as int - 1)->Some_0 > spec_cut(
                                    s,
                                    n as int,
                                    q as int,
                                )->Some_0);
                            }
                            return Err(ReadError::Partition);
                        }
                    }
                    cuts.push(c);
                },
            }
            q = q + 1;
        }
        proof {
            assert forall|p2: int| 0 <= p2 < n - 1 implies #[trigger] spec_cut(
                s,
                n as int,
                p2,
            ) is Some by {}
            assert forall|p2: int| 0 <= p2 < n - 2 implies (#[trigger] spec_cut(
                s,
                n as int,
                p2,
            ))->Some_0 <= spec_cut(s, n as int, p2 + 1)->Some_0 by {
                assert(cuts@[p2] <= cuts@[p2 + 1]);
            }
            assert(spec_scan(s, n as int) is Ok);
            assert(cuts@.map(|p2: int, x: usize| x as int) =~= spec_scan(s, n as int)->Ok_0);
        }
        Ok(cuts)
    }

    /// The whole sharded lexical pass with four shards: split, tokenize each
    /// shard independently, join the per-shard token sequences in shard
    /// order, with the first error — a partition error of the splitter or
    /// the first shard's lexical error — aborting the whole pass.
    pub fn read_tokens(&self) -> (r: Result<Vec<Token>, ReadError>)
        ensures
            match spec_multi_tokens(self.chars_view(), 4) {
                Ok(ts) => r matches Ok(v) && tokens_view(v@) == ts,
                Err(e) => r matches Err(e2) && e2 == e,
            },
    {
        let ghost s = self.chars@;
        let n: usize = 4;
        let cuts = match self.scan(n) {
            Err(e) => {
                return Err(e);
            },
            Ok(cuts) => cuts,
        };
        let ghost speccuts = spec_scan(s, n as int)->Ok_0;
        proof {
            lemma_split_safety(s, n as int);
        }
        // carve the shards out in order
        let total = self.chars.len();
        let mut shards: Vec<Vec<char>> = Vec::new();
        let mut from: usize = 0;
        let mut q: usize = 0;
        proof {
            assert(speccuts.skip(0) =~= speccuts);
            assert(shards_view(shards@) =~= Seq::<Seq<char>>::empty());
            assert(Seq::<Seq<char>>::empty() + shards_of(s, speccuts, 0) =~= shards_of(
                s,
                speccuts,
                0,
            ));
        }
        while q < cuts.len()
            invariant
                cuts@.map(|p2: int, x: usize| x as int) == speccuts,
                speccuts.len() == n - 1,
                s == self.chars@,
                forall|p: int| 0 <= p < speccuts.len() ==> legal_cut(s, #[trigger] speccuts[p]),
                forall|p: int|
                    0 <= p < speccuts.len() - 1 ==> #[trigger] speccuts[p] <= speccuts[p + 1],
                q <= cuts@.len(),
                total == s.len(),
                shards@.len() == q,
                q == 0 ==> from == 0,
                q > 0 ==> from == speccuts[q - 1] + 1,
                from <= s.len(),
                shards_view(shards@) + shards_of(s, speccuts.skip(q as int), from as int)
                    =~= shards_of(s, speccuts, 0),
            decreases cuts@.len() - q,
        {
            let c = cuts[q];
            proof {
                assert(speccuts[q as int] == c as int);
                assert(legal_cut(s, c as int));
            }
            let ghost shards_pre = shards@;
            proof {
                assert(c < total);
            }
            let sh = copy_range(&self.chars, from, c + 1);
            shards.push(sh);
            proof {
                assert(shards_view(shards@) =~= shards_view(shards_pre).push(sh@));
                assert(speccuts.skip(q as int)[0] == speccuts[q as int]);
                assert(speccuts.skip(q as int).skip(1) =~= speccuts.skip(q as int + 1));
                assert(shards_view(shards_pre).push(sh@) + shards_of(
                    s,
                    speccuts.skip(q as int + 1),
                    c as int + 1,
                ) =~= shards_view(shards_pre) + shards_of(s, speccuts.skip(q as int), from as int));
            }
            from = c + 1;
            q = q + 1;
        }
        let ghost shards_pre = shards@;
        let last = copy_range(&self.chars, from, self.chars.len());
        shards.push(last);
        proof {
            assert(speccuts.skip(speccuts.len() as int) =~= Seq::<int>::empty());
            assert(shards_view(shards@) =~= shards_view(shards_pre).push(last@));
            assert(shards_view(shards_pre).push(last@) + Seq::<Seq<char>>::empty() =~= shards_view(
                shards_pre,
            ) + shards_of(s, speccuts.skip(speccuts.len() as int), from as int));
            assert(shards_view(shards@) =~= shards_of(s, speccuts, 0));
        }
        // tokenize the shards independently, then join in shard order
        let mut results = par_tokenize(&shards);
        let mut out: Vec<Token> = Vec::new();
        let ghost all = shards_view(shards@);
        let ghost mut g: int = 0;
        proof {
            assert(all.skip(0) =~= all);
            assert(tokens_view(out@) =~= Seq::<SpecToken>::empty());
            assert forall|j: int| 0 <= j < results@.len() implies shard_result_ok(
                #[trigger] results@[j],
                lex::tokens_from(all[j]),
            ) by {
                assert(all[j] == shards@[j]@);
            }
            match merge_shard_tokens(all) {
                Ok(ts) => {
                    assert(Seq::<SpecToken>::empty() + ts =~= ts);
                },
                Err(_) => {},
            }
        }
        while results.len() > 0
            invariant
                s == self.chars@,
                spec_scan(s, 4) is Ok,
                speccuts == spec_scan(s, 4)->Ok_0,
                all == shards_of(s, speccuts, 0),
                0 <= g <= all.len(),
                results@.len() + g == all.len(),
                forall|j: int|
                    0 <= j < results@.len() ==> shard_result_ok(
                        #[trigger] results@[j],
                        lex::tokens_from(all[g + j]),
                    ),
                match merge_shard_tokens(all.skip(g)) {
                    Ok(ts) => merge_shard_tokens(all) matches Ok(whole) && whole == tokens_view(
                        out@,
                    ) + ts,
                    Err(e) => merge_shard_tokens(all) == Err::<Seq<SpecToken>, ReadError>(e),
                },
            decreases results@.len(),
        {
            let ghost results_pre = results@;
            let first = results.remove(0);
            match first {
                Err(e) => {
                    return Err(e);
                },
                Ok(mut v) => {
                    let ghost out_pre = out@;
                    let ghost vseq = v@;
                    out.append(&mut v);
                    proof {
                        assert(all.skip(g)[0] == all[g]);
                        assert(all.skip(g).skip(1) =~= all.skip(g + 1));
                        assert(tokens_view(out@) =~= tokens_view(out_pre) + tokens_view(vseq));
                        match merge_shard_tokens(all.skip(g + 1)) {
                            Ok(ts) => {
                                assert(tokens_view(out_pre) + (tokens_view(vseq) + ts)
                                    =~= tokens_view(out@) + ts);
                            },
                            Err(_) => {},
                        }
                        assert forall|j: int| 0 <= j < results@.len() implies shard_result_ok(
                            #[trigger] results@[j],
                            lex::tokens_from(all[g + 1 + j]),
                        ) by {
                            assert(results@[j] == results_pre[j + 1]);
                        }
                    }
                    proof {
                        g = g + 1;
                    }
                },
            }
        }
        proof {
            assert(all.skip(g) =~= Seq::<Seq<char>>::empty());
            assert(tokens_view(out@) + Seq::<SpecToken>::empty() =~= tokens_view(out@));
        }
        Ok(out)
    }
}

/// Whether an optional candidate matches its mathematical counterpart.
pub open spec fn cand_matches(c: Option<usize>, m: Option<int>) -> bool {
    match c {
        Option::None => m is None,
        Option::Some(x) => m == Option::Some(x as int),
    }
}

} // verus!
