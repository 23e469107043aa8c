//! The dictionary and the prompt source.

use vstd::prelude::*;
use crate::outside::{random_between, shuffle};
use crate::text::{
    byte_len, byte_length, chars_of, compare_chars, lemma_lex_asymmetric, lemma_lex_irreflexive,
    lemma_lex_transitive, lex_less, lex_sorted, lines, parse_chars, parse_count, same_chars,
    split_chars, split_lines, split_once, split_once_chars, split_text, string_of, Order,
};

verus! {

/// The word list and the prompts.
#[derive(Clone, Debug, PartialEq)]
pub struct GlobalData {
    /// The dictionary, one entry per line of the word file.
    pub words: Vec<String>,
    pub prompts: Prompts,
    /// Whether the dictionary was found to be in dictionary order, which
    /// allows a binary search.
    pub sorted: bool,
    /// Positions in `words` of the words that are six bytes long, ascending.
    pub six: Vec<usize>,
}

/// Prompts grouped by how many dictionary words contain them.
#[derive(Clone, Debug, PartialEq)]
pub struct Prompts {
    /// All prompts, in file order.
    pub prompts: Vec<String>,
    /// One entry per group: the group's words-per-prompt count and the
    /// position in `prompts` of the group's first prompt.
    pub wpp_indexes: Vec<(usize, usize)>,
}

/// Distance between two counts.
pub open spec fn gap(a: usize, b: usize) -> int {
    if a <= b {
        b - a
    } else {
        a - b
    }
}

/// Position of the first group at or after `from` whose count is at least
/// `min_wpp`, or the number of groups if there is none.
pub open spec fn first_at_least(groups: Seq<(usize, usize)>, min_wpp: usize, from: int) -> int
    decreases groups.len() - from,
{
    if from < 0 || from >= groups.len() {
        groups.len() as int
    } else if groups[from].0 >= min_wpp {
        from
    } else {
        first_at_least(groups, min_wpp, from + 1)
    }
}

/// Position, among the first `upto + 1` groups, of the group whose count is
/// closest to `min_wpp`; the earliest of them where several are as close.
pub open spec fn closest(groups: Seq<(usize, usize)>, min_wpp: usize, upto: int) -> int
    decreases upto,
{
    if upto <= 0 {
        0
    } else {
        let best = closest(groups, min_wpp, upto - 1);
        if gap(groups[upto].0, min_wpp) < gap(groups[best].0, min_wpp) {
            upto
        } else {
            best
        }
    }
}

/// The group that a threshold selects: the first whose count reaches it, or,
/// where none does, the one whose count is closest.
pub open spec fn chosen_group(groups: Seq<(usize, usize)>, min_wpp: usize) -> int {
    let first = first_at_least(groups, min_wpp, 0);
    if first < groups.len() {
        first
    } else {
        closest(groups, min_wpp, groups.len() - 1)
    }
}

/// A group of the prompts file: the text of its count, and its prompts.
pub type Group = (Seq<char>, Seq<Seq<char>>);

/// The groups of the prompts file: one for each line that holds a colon, with
/// what stands before the first colon as the count, and what stands after it,
/// split at the commas, as the prompts.
pub open spec fn groups(lines: Seq<Seq<char>>) -> Seq<Group>
    decreases lines.len(),
{
    if lines.len() == 0 {
        Seq::empty()
    } else {
        match split_once(lines.last(), ':') {
            Some(parts) => groups(lines.drop_last()).push((parts.0, split_text(parts.1, ','))),
            None => groups(lines.drop_last()),
        }
    }
}

/// The prompts of all groups, in order.
pub open spec fn all_prompts(groups: Seq<Group>) -> Seq<Seq<char>>
    decreases groups.len(),
{
    if groups.len() == 0 {
        Seq::empty()
    } else {
        all_prompts(groups.drop_last()) + groups.last().1
    }
}

/// Position of the first prompt with the given text, or the number of prompts.
pub open spec fn first_index(prompts: Seq<Seq<char>>, prompt: Seq<char>) -> int
    decreases prompts.len(),
{
    if prompts.len() == 0 {
        0
    } else if first_index(prompts.drop_last(), prompt) < prompts.len() - 1 {
        first_index(prompts.drop_last(), prompt)
    } else if prompts.last() == prompt {
        prompts.len() - 1
    } else {
        prompts.len() as int
    }
}

pub proof fn lemma_first_index(prompts: Seq<Seq<char>>, prompt: Seq<char>)
    ensures
        0 <= first_index(prompts, prompt) <= prompts.len(),
        first_index(prompts, prompt) < prompts.len() ==> prompts[first_index(prompts, prompt)]
            == prompt,
        forall|i: int| 0 <= i < first_index(prompts, prompt) ==> #[trigger] prompts[i] != prompt,
    decreases prompts.len(),
{
    if prompts.len() > 0 {
        lemma_first_index(prompts.drop_last(), prompt);
        assert forall|i: int| 0 <= i < first_index(prompts, prompt) implies #[trigger] prompts[i]
            != prompt by {
            if i < prompts.len() - 1 {
                assert(prompts.drop_last()[i] == prompts[i]);
            }
        }
    }
}

/// For each group whose count is a number, the number, and the position in
/// the list of all prompts of the first prompt that reads like the group's
/// first.
pub open spec fn group_indexes(groups: Seq<Group>, prompts: Seq<Seq<char>>) -> Seq<(usize, usize)>
    decreases groups.len(),
{
    if groups.len() == 0 {
        Seq::empty()
    } else {
        match parse_count(groups.last().0) {
            Some(count) => group_indexes(groups.drop_last(), prompts).push(
                (count, first_index(prompts, groups.last().1[0]) as usize),
            ),
            None => group_indexes(groups.drop_last(), prompts),
        }
    }
}

/// Every group has a first prompt, and the list of all prompts holds it.
pub proof fn lemma_first_prompts(groups: Seq<Group>, k: int)
    requires
        0 <= k < groups.len(),
        forall|g: int| 0 <= g < groups.len() ==> (#[trigger] groups[g]).1.len() > 0,
    ensures
        all_prompts(groups).contains(groups[k].1[0]),
    decreases groups.len(),
{
    let rest = all_prompts(groups.drop_last());
    let last = groups.last().1;
    if k == groups.len() - 1 {
        assert((rest + last)[rest.len() as int] == last[0]);
    } else {
        assert(groups.drop_last()[k] == groups[k]);
        assert forall|g: int| 0 <= g < groups.drop_last().len() implies (
        #[trigger] groups.drop_last()[g]).1.len() > 0 by {
            assert(groups[g].1.len() > 0);
        }
        lemma_first_prompts(groups.drop_last(), k);
        let at = choose|at: int| 0 <= at < rest.len() && rest[at] == groups[k].1[0];
        assert((rest + last)[at] == groups[k].1[0]);
    }
}

/// The indexes of groups point into the list of all prompts.
pub proof fn lemma_group_indexes(groups: Seq<Group>, upto: int)
    requires
        0 <= upto <= groups.len(),
        forall|g: int| 0 <= g < groups.len() ==> (#[trigger] groups[g]).1.len() > 0,
        all_prompts(groups).len() <= usize::MAX,
    ensures
        forall|i: int|
            0 <= i < group_indexes(groups.subrange(0, upto), all_prompts(groups)).len() ==> (
            #[trigger] group_indexes(groups.subrange(0, upto), all_prompts(groups))[i]).1
                < all_prompts(groups).len(),
    decreases upto,
{
    if upto > 0 {
        let part = groups.subrange(0, upto);
        assert(part.drop_last() =~= groups.subrange(0, upto - 1));
        assert(part.last() == groups[upto - 1]);
        lemma_group_indexes(groups, upto - 1);
        lemma_first_prompts(groups, upto - 1);
        let prompts = all_prompts(groups);
        let first = groups[upto - 1].1[0];
        lemma_first_index(prompts, first);
        let at = choose|at: int| 0 <= at < prompts.len() && prompts[at] == first;
        assert(first_index(prompts, first) <= at);
        let before = group_indexes(groups.subrange(0, upto - 1), prompts);
        let after = group_indexes(part, prompts);
        assert forall|i: int| 0 <= i < after.len() implies (#[trigger] after[i]).1
            < prompts.len() by {
            if i < before.len() {
                assert(after[i] == before[i]);
            }
        }
    }
}

/// Every two neighbours in the list are in order, or the same.
pub open spec fn ascending(words: Seq<Seq<char>>) -> bool {
    forall|i: int|
        0 <= i < words.len() - 1 ==> lex_less(#[trigger] words[i], words[i + 1]) || words[i]
            == words[i + 1]
}

/// A list whose neighbours are in order is in order throughout.
pub proof fn lemma_ascending_sorted(words: Seq<Seq<char>>)
    requires
        ascending(words),
    ensures
        lex_sorted(words),
{
    assert forall|i: int, j: int| 0 <= i < j < words.len() implies !lex_less(
        words[j],
        words[i],
    ) by {
        lemma_ascending_pair(words, i, j);
        if words[i] == words[j] {
            lemma_lex_irreflexive(words[i]);
        } else {
            lemma_lex_asymmetric(words[i], words[j]);
        }
    }
}

proof fn lemma_ascending_pair(words: Seq<Seq<char>>, i: int, j: int)
    requires
        ascending(words),
        0 <= i < j < words.len(),
    ensures
        lex_less(words[i], words[j]) || words[i] == words[j],
    decreases j - i,
{
    if j > i + 1 {
        lemma_ascending_pair(words, i, j - 1);
        assert(lex_less(words[j - 1], words[j]) || words[j - 1] == words[j]);
        if lex_less(words[i], words[j - 1]) && lex_less(words[j - 1], words[j]) {
            lemma_lex_transitive(words[i], words[j - 1], words[j]);
        }
    }
}

impl Prompts {
    /// Reads the prompts file: groups of prompts, one to a line, each with
    /// the number of dictionary words that contain a prompt of the group.
    pub fn new(text: &str) -> (r: Prompts)
        ensures
            r.prompts.deep_view() == all_prompts(groups(split_lines(text@))),
            r.wpp_indexes@ == group_indexes(
                groups(split_lines(text@)),
                all_prompts(groups(split_lines(text@))),
            ),
            r.wf(),
    {
        let rows = lines(text);
        let ghost all_rows = split_lines(text@);
        let mut heads: Vec<(Vec<char>, Vec<char>)> = Vec::new();
        let mut list: Vec<Vec<char>> = Vec::new();
        let mut i: usize = 0;
        assert(all_rows.subrange(0, 0) =~= Seq::<Seq<char>>::empty());
        assert(list.deep_view() =~= Seq::<Seq<char>>::empty());
        while i < rows.len()
            invariant
                i <= rows@.len(),
                all_rows == rows.deep_view(),
                list.deep_view() == all_prompts(groups(all_rows.subrange(0, i as int))),
                heads@.len() == groups(all_rows.subrange(0, i as int)).len(),
                forall|g: int|
                    0 <= g < heads@.len() ==> (#[trigger] heads@[g]).0@ == groups(
                        all_rows.subrange(0, i as int),
                    )[g].0 && heads@[g].1@ == groups(all_rows.subrange(0, i as int))[g].1[0]
                        && groups(all_rows.subrange(0, i as int))[g].1.len() > 0,
            decreases rows@.len() - i,
        {
            let ghost before = groups(all_rows.subrange(0, i as int));
            assert(all_rows.subrange(0, i + 1).drop_last() =~= all_rows.subrange(0, i as int));
            assert(all_rows.subrange(0, i + 1).last() == rows@[i as int]@);
            let row = chars_of(rows[i].as_str());
            let ghost next = groups(all_rows.subrange(0, i + 1));
            match split_once_chars(&row, ':') {
                Some(parts) => {
                    let mut pieces = split_chars(&parts.1, ',');
                    let ghost found = pieces.deep_view();
                    assert(found.len() > 0);
                    assert(next == before.push((parts.0@, found)));
                    assert(next.drop_last() =~= before);
                    assert(pieces@[0]@ =~= found[0]) by {
                        assert(pieces@[0].deep_view() =~= pieces@[0]@);
                    }
                    let mut first: Vec<char> = Vec::new();
                    let mut a: usize = 0;
                    while a < pieces[0].len()
                        invariant
                            pieces@.len() > 0,
                            a <= pieces@[0]@.len(),
                            first@ == pieces@[0]@.subrange(0, a as int),
                        decreases pieces@[0]@.len() - a,
                    {
                        first.push(pieces[0][a]);
                        a += 1;
                        assert(first@ =~= pieces@[0]@.subrange(0, a as int));
                    }
                    assert(first@ =~= pieces@[0]@);
                    let ghost count_text = parts.0@;
                    let ghost old_heads = heads@;
                    heads.push((parts.0, first));
                    proof {
                        assert forall|g: int| 0 <= g < heads@.len() implies (
                        #[trigger] heads@[g]).0@ == next[g].0 && heads@[g].1@ == next[g].1[0]
                            && next[g].1.len() > 0 by {
                            if g < old_heads.len() {
                                assert(heads@[g] == old_heads[g]);
                                assert(next[g] == before[g]);
                            }
                        }
                    }
                    let ghost sofar = list.deep_view();
                    let ghost sofar_list = list@;
                    let ghost added = pieces@;
                    list.append(&mut pieces);
                    proof {
                        assert(list@ =~= sofar_list + added);
                        assert(list.deep_view() =~= sofar + found);
                    }
                },
                None => {
                    assert(next == before);
                },
            }
            i += 1;
        }
        assert(all_rows.subrange(0, i as int) =~= all_rows);
        let ghost all_groups = groups(all_rows);
        let ghost prompts = all_prompts(all_groups);
        proof {
            assert forall|g: int| 0 <= g < all_groups.len() implies (
            #[trigger] all_groups[g]).1.len() > 0 by {
                assert(heads@[g].0@ == all_groups[g].0);
            }
        }
        let mut wpp_indexes: Vec<(usize, usize)> = Vec::new();
        let mut g: usize = 0;
        assert(all_groups.subrange(0, 0) =~= Seq::<Group>::empty());
        while g < heads.len()
            invariant
                g <= heads@.len(),
                heads@.len() == all_groups.len(),
                prompts == list.deep_view(),
                forall|k: int|
                    0 <= k < heads@.len() ==> (#[trigger] heads@[k]).0@ == all_groups[k].0
                        && heads@[k].1@ == all_groups[k].1[0],
                wpp_indexes@ == group_indexes(all_groups.subrange(0, g as int), prompts),
            decreases heads@.len() - g,
        {
            assert(all_groups.subrange(0, g + 1).drop_last() =~= all_groups.subrange(0, g as int));
            assert(all_groups.subrange(0, g + 1).last() == all_groups[g as int]);
            match parse_chars(&heads[g].0) {
                Some(count) => {
                    let ghost wanted = heads@[g as int].1@;
                    proof {
                        lemma_first_index(prompts, wanted);
                    }
                    let mut at: usize = 0;
                    while at < list.len() && !same_chars(&list[at], &heads[g].1)
                        invariant
                            at <= list@.len(),
                            g < heads@.len(),
                            wanted == heads@[g as int].1@,
                            prompts == list.deep_view(),
                            at <= first_index(prompts, wanted) <= prompts.len(),
                            first_index(prompts, wanted) < prompts.len() ==> prompts[first_index(
                                prompts,
                                wanted,
                            )] == wanted,
                            forall|k: int|
                                0 <= k < first_index(prompts, wanted) ==> #[trigger] prompts[k]
                                    != wanted,
                        decreases list@.len() - at,
                    {
                        assert(prompts[at as int] =~= list@[at as int]@);
                        at += 1;
                    }
                    proof {
                        if at < list@.len() {
                            assert(prompts[at as int] =~= list@[at as int]@);
                        }
                        assert(at == first_index(prompts, wanted));
                        assert(wanted == all_groups[g as int].1[0]);
                    }
                    wpp_indexes.push((count, at));
                },
                None => {},
            }
            g += 1;
        }
        assert(all_groups.subrange(0, g as int) =~= all_groups);
        let mut texts: Vec<String> = Vec::new();
        let mut k: usize = 0;
        while k < list.len()
            invariant
                k <= list@.len(),
                texts@.len() == k,
                forall|j: int| 0 <= j < k ==> (#[trigger] texts@[j])@ == list@[j]@,
            decreases list@.len() - k,
        {
            texts.push(string_of(&list[k]));
            k += 1;
        }
        proof {
            assert(texts.deep_view() =~= list.deep_view()) by {
                assert forall|j: int| 0 <= j < texts@.len() implies texts.deep_view()[j]
                    == list.deep_view()[j] by {
                    assert(list@[j].deep_view() =~= list@[j]@);
                }
            }
            assert(all_groups.subrange(0, all_groups.len() as int) =~= all_groups);
            assert(prompts.len() == list@.len());
            lemma_group_indexes(all_groups, all_groups.len() as int);
        }
        Prompts { prompts: texts, wpp_indexes }
    }

    /// Every group points into the prompt list.
    pub open spec fn wf(&self) -> bool {
        forall|i: int|
            0 <= i < self.wpp_indexes@.len() ==> (#[trigger] self.wpp_indexes@[i]).1
                < self.prompts@.len()
    }

    /// There is a group to choose from.
    pub open spec fn usable(&self) -> bool {
        self.wf() && self.wpp_indexes@.len() > 0
    }

    /// Position in the prompt list where the prompts for a threshold start.
    pub open spec fn start(&self, min_wpp: usize) -> int {
        self.wpp_indexes@[chosen_group(self.wpp_indexes@, min_wpp)].1 as int
    }

    /// The prompts that may be drawn for a threshold: the rest of the list
    /// from the chosen group's first prompt on.
    pub open spec fn pool(&self, min_wpp: usize) -> Seq<Seq<char>> {
        self.prompts.deep_view().subrange(self.start(min_wpp), self.prompts@.len() as int)
    }

    /// Where the pool for a threshold starts.
    pub fn pool_start(&self, min_wpp: usize) -> (r: usize)
        requires
            self.usable(),
        ensures
            r == self.start(min_wpp),
            r < self.prompts@.len(),
    {
        let n = self.wpp_indexes.len();
        let mut i: usize = 0;
        while i < n
            invariant
                0 <= i <= n,
                n == self.wpp_indexes@.len(),
                self.wf(),
                first_at_least(self.wpp_indexes@, min_wpp, 0) == first_at_least(
                    self.wpp_indexes@,
                    min_wpp,
                    i as int,
                ),
            decreases n - i,
        {
            if self.wpp_indexes[i].0 >= min_wpp {
                return self.wpp_indexes[i].1;
            }
            i += 1;
        }
        let mut best: usize = 0;
        let mut j: usize = 1;
        while j < n
            invariant
                1 <= j <= n,
                n == self.wpp_indexes@.len(),
                self.wf(),
                best == closest(self.wpp_indexes@, min_wpp, j - 1),
                best < j,
            decreases n - j,
        {
            let a = self.wpp_indexes[j].0;
            let b = self.wpp_indexes[best].0;
            let da = if a <= min_wpp { min_wpp - a } else { a - min_wpp };
            let db = if b <= min_wpp { min_wpp - b } else { b - min_wpp };
            if da < db {
                best = j;
            }
            j += 1;
        }
        self.wpp_indexes[best].1
    }

    /// The prompt at position `pick` of the pool for a threshold.
    pub fn prompt_at(&self, min_wpp: usize, pick: usize) -> (r: &str)
        requires
            self.usable(),
            pick < self.pool(min_wpp).len(),
        ensures
            r@ == self.pool(min_wpp)[pick as int],
    {
        let start = self.pool_start(min_wpp);
        assert(self.prompts.deep_view().len() == self.prompts@.len());
        assert(self.pool(min_wpp).len() == self.prompts@.len() - start);
        assert(start + pick < self.prompts.len());
        let at: usize = start + pick;
        assert(self.prompts.deep_view()[at as int] == self.prompts@[at as int]@);
        self.prompts[at].as_str()
    }

    /// The pool for a threshold holds a prompt that reads otherwise than
    /// `current`.
    pub open spec fn has_other(&self, min_wpp: usize, current: Seq<char>) -> bool {
        exists|i: int|
            0 <= i < self.pool(min_wpp).len() && #[trigger] self.pool(min_wpp)[i] != current
    }

    /// A prompt drawn at random among those of the pool for a threshold that
    /// read otherwise than `current`; none where the pool holds no such one.
    pub fn random_other(&self, min_wpp: usize, current: &str) -> (r: Option<&str>)
        requires
            self.usable(),
        ensures
            match r {
                Some(prompt) => self.pool(min_wpp).contains(prompt@) && prompt@ != current@,
                None => !self.has_other(min_wpp, current@),
            },
    {
        let start = self.pool_start(min_wpp);
        let now = chars_of(current);
        let count = self.prompts.len();
        let ghost pool = self.pool(min_wpp);
        assert(self.prompts.deep_view().len() == count);
        let mut others: Vec<usize> = Vec::new();
        let mut i: usize = start;
        while i < count
            invariant
                start <= i <= count,
                count == self.prompts@.len(),
                now@ == current@,
                forall|k: int|
                    0 <= k < others@.len() ==> start <= (#[trigger] others@[k]) < i
                        && self.prompts@[others@[k] as int]@ != current@,
                others@.len() == 0 ==> forall|j: int|
                    start <= j < i ==> (#[trigger] self.prompts@[j])@ == current@,
            decreases count - i,
        {
            let prompt = chars_of(self.prompts[i].as_str());
            if !same_chars(&prompt, &now) {
                others.push(i);
            }
            i += 1;
        }
        if others.len() == 0 {
            proof {
                assert forall|j: int| 0 <= j < pool.len() implies #[trigger] pool[j]
                    == current@ by {
                    assert(pool[j] == self.prompts@[start + j]@);
                }
            }
            None
        } else {
            let pick = random_between(0, (others.len() - 1) as u64) as usize;
            let at = others[pick];
            proof {
                assert(pool[at - start] == self.prompts@[at as int]@);
            }
            Some(self.prompts[at].as_str())
        }
    }

    /// A prompt drawn at random from the pool for a threshold.
    pub fn random_prompt(&self, min_wpp: usize) -> (r: &str)
        requires
            self.usable(),
        ensures
            self.pool(min_wpp).contains(r@),
    {
        let start = self.pool_start(min_wpp);
        let count: usize = self.prompts.len() - start;
        assert(self.prompts.deep_view().len() == self.prompts@.len());
        let pick = random_between(0, (count - 1) as u64) as usize;
        self.prompt_at(min_wpp, pick)
    }
}

impl GlobalData {
    /// Reads the dictionary, one word to a line, and the prompts file. The
    /// dictionary is searched faster where its words come in order.
    pub fn new(words: &str, prompts: &str) -> (r: GlobalData)
        ensures
            r.wf(),
            r.words.deep_view() == split_lines(words@),
            r.prompts.prompts.deep_view() == all_prompts(groups(split_lines(prompts@))),
            r.prompts.wpp_indexes@ == group_indexes(
                groups(split_lines(prompts@)),
                all_prompts(groups(split_lines(prompts@))),
            ),
            r.sorted == ascending(split_lines(words@)),
            forall|i: int|
                0 <= i < r.words@.len() ==> (byte_len((#[trigger] r.words@[i])@) == 6
                    <==> r.six@.contains(i as usize)),
            forall|k: int, l: int| 0 <= k < l < r.six@.len() ==> r.six@[k] < r.six@[l],
    {
        let list = lines(words);
        let ghost all = list.deep_view();
        let mut sorted = true;
        let mut six: Vec<usize> = Vec::new();
        let mut i: usize = 0;
        while i < list.len()
            invariant
                i <= list@.len(),
                all == list.deep_view(),
                sorted == ascending(all.subrange(0, i as int)),
                forall|k: int|
                    0 <= k < six@.len() ==> (#[trigger] six@[k]) < i && byte_len(
                        list@[six@[k] as int]@,
                    ) == 6,
                forall|j: int|
                    0 <= j < i ==> (byte_len((#[trigger] list@[j])@) == 6 <==> six@.contains(
                        j as usize,
                    )),
                forall|k: int, l: int| 0 <= k < l < six@.len() ==> six@[k] < six@[l],
            decreases list@.len() - i,
        {
            let ghost part = all.subrange(0, i as int);
            let ghost next = all.subrange(0, i + 1);
            if i > 0 && sorted {
                let a = chars_of(list[i - 1].as_str());
                let b = chars_of(list[i].as_str());
                match compare_chars(&a, &b) {
                    Order::After => {
                        sorted = false;
                        proof {
                            lemma_lex_asymmetric(b@, a@);
                            lemma_lex_irreflexive(a@);
                            assert(next[i - 1] == a@ && next[i as int] == b@);
                        }
                    },
                    _ => {
                        proof {
                            assert forall|k: int| 0 <= k < next.len() - 1 implies lex_less(
                                #[trigger] next[k],
                                next[k + 1],
                            ) || next[k] == next[k + 1] by {
                                if k < i - 1 {
                                    assert(part[k] == next[k] && part[k + 1] == next[k + 1]);
                                }
                            }
                        }
                    },
                }
            } else if !sorted {
                proof {
                    let k = choose|k: int|
                        0 <= k < part.len() - 1 && !(lex_less(#[trigger] part[k], part[k + 1])
                            || part[k] == part[k + 1]);
                    assert(next[k] == part[k] && next[k + 1] == part[k + 1]);
                }
            }
            let ghost before = six@;
            if byte_length(list[i].as_str()) == 6 {
                six.push(i);
                proof {
                    assert(six@[six@.len() - 1] == i);
                    assert forall|x: usize| before.contains(x) implies #[trigger] six@.contains(x) by {
                        let k = choose|k: int| 0 <= k < before.len() && before[k] == x;
                        assert(six@[k] == x);
                    }
                }
            }
            proof {
                assert forall|j: int| 0 <= j < i + 1 implies (byte_len((#[trigger] list@[j])@) == 6
                    <==> six@.contains(j as usize)) by {
                    if six@.contains(j as usize) {
                        let k = choose|k: int| 0 <= k < six@.len() && six@[k] == j as usize;
                        if k < before.len() {
                            assert(before[k] == j as usize);
                        }
                    }
                }
            }
            i += 1;
        }
        assert(all.subrange(0, i as int) =~= all);
        proof {
            if sorted {
                lemma_ascending_sorted(all);
            }
        }
        GlobalData { words: list, prompts: Prompts::new(prompts), sorted, six }
    }

    /// The flag says what it should, and the list of six-byte words holds
    /// the position of every six-byte word of the dictionary, and of no other
    /// word.
    pub open spec fn wf(&self) -> bool {
        &&& self.prompts.wf()
        &&& self.sorted ==> lex_sorted(self.words.deep_view())
        &&& forall|k: int|
            0 <= k < self.six@.len() ==> (#[trigger] self.six@[k]) < self.words@.len()
                && byte_len(self.words@[self.six@[k] as int]@) == 6
        &&& forall|i: int|
            0 <= i < self.words@.len() && byte_len((#[trigger] self.words@[i])@) == 6
                ==> self.six@.contains(i as usize)
    }

    /// The dictionary has a six-byte word.
    pub open spec fn has_six_byte_word(&self) -> bool {
        exists|i: int| 0 <= i < self.words@.len() && byte_len((#[trigger] self.words@[i])@) == 6
    }

    /// Games can be started: there are prompts, and six-byte words to draw.
    pub open spec fn playable(&self) -> bool {
        self.wf() && self.prompts.usable() && self.has_six_byte_word()
    }

    /// Whether games can be started.
    pub fn is_playable(&self) -> (r: bool)
        requires
            self.wf(),
        ensures
            r == self.playable(),
    {
        proof {
            if self.six@.len() > 0 {
                assert(byte_len(self.words@[self.six@[0] as int]@) == 6);
            }
            if self.has_six_byte_word() {
                let i = choose|i: int|
                    0 <= i < self.words@.len() && byte_len((#[trigger] self.words@[i])@) == 6;
                assert(self.six@.contains(i as usize));
            }
        }
        self.prompts.wpp_indexes.len() > 0 && self.six.len() > 0
    }

    /// The word is an entry of the dictionary.
    pub open spec fn has_word(&self, word: Seq<char>) -> bool {
        exists|i: int| 0 <= i < self.words@.len() && (#[trigger] self.words@[i])@ == word
    }

    /// Exact membership in the word list.
    pub fn is_valid(&self, word: &str) -> (r: bool)
        requires
            self.wf(),
        ensures
            r == self.has_word(word@),
    {
        let w = chars_of(word);
        if self.sorted {
            let mut lo: usize = 0;
            let mut hi: usize = self.words.len();
            while lo < hi
                invariant
                    0 <= lo <= hi <= self.words@.len(),
                    w@ == word@,
                    self.sorted,
                    self.wf(),
                    forall|i: int| 0 <= i < lo ==> (#[trigger] self.words@[i])@ != w@,
                    forall|i: int|
                        hi <= i < self.words@.len() ==> (#[trigger] self.words@[i])@ != w@,
                decreases hi - lo,
            {
                let mid: usize = lo + (hi - lo) / 2;
                let entry = chars_of(self.words[mid].as_str());
                let ghost all = self.words.deep_view();
                match compare_chars(&entry, &w) {
                    Order::Same => {
                        return true;
                    },
                    Order::Before => {
                        assert forall|i: int| 0 <= i < mid + 1 implies (
                        #[trigger] self.words@[i])@ != w@ by {
                            if self.words@[i]@ == w@ {
                                assert(all[i] == w@);
                                assert(all[mid as int] == entry@);
                                lemma_lex_irreflexive(w@);
                            }
                        }
                        lo = mid + 1;
                    },
                    Order::After => {
                        assert forall|i: int| mid <= i < self.words@.len() implies (
                        #[trigger] self.words@[i])@ != w@ by {
                            if self.words@[i]@ == w@ {
                                assert(all[i] == w@);
                                assert(all[mid as int] == entry@);
                                lemma_lex_irreflexive(w@);
                            }
                        }
                        hi = mid;
                    },
                }
            }
            false
        } else {
            let mut i: usize = 0;
            while i < self.words.len()
                invariant
                    0 <= i <= self.words@.len(),
                    w@ == word@,
                    forall|k: int| 0 <= k < i ==> (#[trigger] self.words@[k])@ != w@,
                decreases self.words@.len() - i,
            {
                let entry = chars_of(self.words[i].as_str());
                if same_chars(&entry, &w) {
                    return true;
                }
                i += 1;
            }
            false
        }
    }

    /// The six-byte word at position `pick` among the six-byte words.
    pub fn anagram_base(&self, pick: usize) -> (r: &str)
        requires
            self.wf(),
            pick < self.six@.len(),
        ensures
            r@ == self.words@[self.six@[pick as int] as int]@,
            byte_len(r@) == 6,
            self.has_word(r@),
    {
        self.words[self.six[pick]].as_str()
    }

    /// A six-byte word drawn at random, and its characters in a random order.
    pub fn random_anagram(&self) -> (r: (&str, String))
        requires
            self.wf(),
            self.has_six_byte_word(),
        ensures
            self.has_word(r.0@),
            byte_len(r.0@) == 6,
            r.1@.to_multiset() == r.0@.to_multiset(),
    {
        proof {
            let i = choose|i: int|
                0 <= i < self.words@.len() && byte_len((#[trigger] self.words@[i])@) == 6;
            assert(self.six@.contains(i as usize));
        }
        let pick = random_between(0, (self.six.len() - 1) as u64) as usize;
        let original = self.anagram_base(pick);
        let mut chars = chars_of(original);
        shuffle(&mut chars);
        (original, string_of(&chars))
    }
}

} // verus!
