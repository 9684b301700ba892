//! The template expander: from the tokens of an invocation to the jobs it stands for.
//!
//! The value sets of an invocation are put in expansion order, largest first. Their
//! cartesian product is walked with the first set of that order as the outermost loop,
//! and the command pattern is rendered once for each combination.

use crate::text::{
    chars_of, clone_strings, join, joined, lemma_position, lemma_position_is, number,
    parse_number, position, same_text, split_words, string_of, words,
};
use crate::job::{Job, JobModel};
use crate::jobmanager::{ConfigurationError, JobManager, JobManagerModel, BOTH_ROLES_MESSAGE};
use vstd::arithmetic::div_mod::lemma_fundamental_div_mod_converse;
use vstd::prelude::*;

verus! {

/// The test for being the character `wanted`.
pub open spec fn is_char(wanted: char) -> spec_fn(char) -> bool {
    |c: char| c == wanted
}

/// The test for being anything but a quote mark.
pub open spec fn is_no_quote() -> spec_fn(char) -> bool {
    |c: char| c != '\''
}

/// The pattern without its quote marks.
pub open spec fn without_quotes(pattern: Seq<char>) -> Seq<char> {
    pattern.filter(is_no_quote())
}

/// Whether `command` holds a target: an opening brace before the first closing brace.
pub open spec fn has_target(command: Seq<char>) -> bool {
    let open = position(command, is_char('{'));
    let close = position(command, is_char('}'));
    0 <= open < close < command.len()
}

/// `command` with `all` in place of each bare target `{}`, taken from left to right.
pub open spec fn filled(command: Seq<char>, all: Seq<char>) -> Seq<char>
    decreases command.len(),
{
    if command.len() == 0 {
        Seq::empty()
    } else if command.len() >= 2 && command[0] == '{' && command[1] == '}' {
        all + filled(command.skip(2), all)
    } else {
        seq![command[0]] + filled(command.skip(1), all)
    }
}

/// What the numbered target `{n}` stands for: the `n`-th value, counted from one,
/// where zero counts as one; nothing where there are fewer values than that.
pub open spec fn picked(values: Seq<Seq<char>>, n: nat) -> Seq<char> {
    let nth = if n == 0 {
        1
    } else {
        n
    };
    if nth > values.len() {
        Seq::empty()
    } else {
        values[nth - 1]
    }
}

/// `command` with its numbered targets replaced, from left to right.
///
/// A target runs from the first opening brace to the first closing brace after it and
/// holds a number. What a target is replaced with is not looked at again. The first
/// pair of braces that is out of order or holds no number ends the replacing: it and
/// all that follows stay as they are.
pub open spec fn expanded(command: Seq<char>, values: Seq<Seq<char>>) -> Seq<char>
    decreases command.len(),
{
    let open = position(command, is_char('{'));
    let close = position(command, is_char('}'));
    if 0 <= open < close < command.len() {
        match number(command.subrange(open + 1, close), usize::MAX as nat) {
            Some(n) => command.take(open) + picked(values, n) + expanded(
                command.skip(close + 1),
                values,
            ),
            None => command,
        }
    } else {
        command
    }
}

/// The command that `pattern` stands for with the values of one combination.
///
/// Quote marks are dropped. Without any target the values, joined by spaces, are put
/// after the command and a space. Otherwise they take the place of each bare target,
/// and each numbered target is replaced by the value it names.
pub open spec fn rendered(pattern: Seq<char>, values: Seq<Seq<char>>) -> Seq<char> {
    let command = without_quotes(pattern);
    let all = joined(values, seq![' ']);
    if has_target(command) {
        expanded(filled(command, all), values)
    } else {
        command + seq![' '] + all
    }
}

/// A pattern without braces and quote marks stands for itself with the values after it:
/// the command, a space, and the values with single spaces between them.
pub proof fn lemma_plain_pattern_gets_the_values(pattern: Seq<char>, values: Seq<Seq<char>>)
    requires
        forall|i: int|
            0 <= i < pattern.len() ==> (#[trigger] pattern[i]) != '{' && pattern[i] != '}'
                && pattern[i] != '\'',
    ensures
        rendered(pattern, values) == pattern + seq![' '] + joined(values, seq![' ']),
{
    lemma_without_quotes_keeps_the_rest(pattern);
    assert(without_quotes(pattern) == pattern);
    lemma_position_is(pattern, is_char('}'), pattern.len() as int);
}

/// Dropping the quote marks of a pattern that has none changes nothing.
proof fn lemma_without_quotes_keeps_the_rest(pattern: Seq<char>)
    requires
        forall|i: int| 0 <= i < pattern.len() ==> (#[trigger] pattern[i]) != '\'',
    ensures
        without_quotes(pattern) == pattern,
    decreases pattern.len(),
{
    reveal(Seq::filter);
    if pattern.len() > 0 {
        let head = pattern.drop_last();
        assert forall|i: int| 0 <= i < head.len() implies (#[trigger] head[i]) != '\'' by {
            assert(head[i] == pattern[i]);
        }
        lemma_without_quotes_keeps_the_rest(head);
        assert(head.push(pattern.last()) =~= pattern);
    } else {
        assert(pattern.filter(is_no_quote()) =~= pattern);
    }
}

fn push_range(out: &mut Vec<char>, more: &Vec<char>, from: usize, to: usize)
    requires
        from <= to <= more@.len(),
    ensures
        final(out)@ == old(out)@ + more@.subrange(from as int, to as int),
{
    let mut i: usize = from;
    assert(more@.subrange(from as int, from as int) =~= Seq::empty());
    assert(out@ =~= old(out)@ + Seq::empty());
    while i < to
        invariant
            from <= i <= to <= more@.len(),
            out@ == old(out)@ + more@.subrange(from as int, i as int),
        decreases to - i,
    {
        out.push(more[i]);
        assert(more@.subrange(from as int, i + 1) =~= more@.subrange(from as int, i as int).push(
            more@[i as int],
        ));
        assert(out@ =~= old(out)@ + more@.subrange(from as int, i + 1));
        i = i + 1;
    }
}

fn find(s: &Vec<char>, from: usize, wanted: char) -> (at: usize)
    requires
        from <= s@.len(),
    ensures
        from <= at <= s@.len(),
        at - from == position(s@.skip(from as int), is_char(wanted)),
{
    let n = s.len();
    let mut at: usize = from;
    while at < n && s[at] != wanted
        invariant
            n == s@.len(),
            from <= at <= n,
            forall|i: int| from <= i < at ==> s@[i] != wanted,
        decreases n - at,
    {
        at = at + 1;
    }
    proof {
        let rest = s@.skip(from as int);
        assert forall|i: int| 0 <= i < at - from implies !is_char(wanted)(#[trigger] rest[i]) by {
            assert(rest[i] == s@[from + i]);
        }
        lemma_position_is(rest, is_char(wanted), at - from);
    }
    at
}

fn strip_quotes(pattern: &Vec<char>) -> (out: Vec<char>)
    ensures
        out@ == without_quotes(pattern@),
{
    let n = pattern.len();
    let mut out: Vec<char> = Vec::new();
    let mut i: usize = 0;
    assert(pattern@.take(0) =~= Seq::empty());
    assert(Seq::<char>::empty().filter(is_no_quote()) =~= Seq::empty()) by {
        reveal(Seq::filter);
    }
    while i < n
        invariant
            n == pattern@.len(),
            i <= n,
            out@ == pattern@.take(i as int).filter(is_no_quote()),
        decreases n - i,
    {
        let c = pattern[i];
        proof {
            assert(pattern@.take(i + 1) =~= pattern@.take(i as int).push(c));
            pattern@.take(i as int).lemma_filter_push(c, is_no_quote());
        }
        if c != '\'' {
            out.push(c);
        }
        i = i + 1;
    }
    assert(pattern@.take(n as int) =~= pattern@);
    out
}

fn fill(command: &Vec<char>, all: &Vec<char>) -> (out: Vec<char>)
    ensures
        out@ == filled(command@, all@),
{
    let n = command.len();
    let mut out: Vec<char> = Vec::new();
    let mut i: usize = 0;
    assert(command@.skip(0) =~= command@);
    assert(out@ + filled(command@, all@) =~= filled(command@, all@));
    while i < n
        invariant
            n == command@.len(),
            i <= n,
            out@ + filled(command@.skip(i as int), all@) == filled(command@, all@),
        decreases n - i,
    {
        let ghost rest = command@.skip(i as int);
        let ghost before = out@;
        if n - i >= 2 && command[i] == '{' && command[i + 1] == '}' {
            push_range(&mut out, all, 0, all.len());
            proof {
                assert(all@.subrange(0, all@.len() as int) =~= all@);
                assert(rest.skip(2) =~= command@.skip(i + 2));
                assert(out@ + filled(command@.skip(i + 2), all@) =~= before + filled(rest, all@));
            }
            i = i + 2;
        } else {
            out.push(command[i]);
            proof {
                assert(rest.skip(1) =~= command@.skip(i + 1));
                assert(out@ + filled(command@.skip(i + 1), all@) =~= before + filled(rest, all@));
            }
            i = i + 1;
        }
    }
    assert(out@ + Seq::<char>::empty() =~= out@);
    out
}

fn push_picked(out: &mut Vec<char>, values: &Vec<String>, n: usize)
    ensures
        final(out)@ == old(out)@ + picked(values.deep_view(), n as nat),
{
    let nth: usize = if n == 0 {
        1
    } else {
        n
    };
    if nth <= values.len() {
        let value = chars_of(values[nth - 1].as_str());
        push_range(out, &value, 0, value.len());
        assert(value@.subrange(0, value@.len() as int) =~= value@);
    } else {
        assert(out@ =~= old(out)@ + Seq::empty());
    }
}

fn expand(command: &Vec<char>, values: &Vec<String>) -> (out: Vec<char>)
    ensures
        out@ == expanded(command@, values.deep_view()),
{
    let n = command.len();
    let mut out: Vec<char> = Vec::new();
    let mut from: usize = 0;
    let mut done = false;
    assert(command@.skip(0) =~= command@);
    assert(out@ + expanded(command@, values.deep_view()) =~= expanded(
        command@,
        values.deep_view(),
    ));
    while !done
        invariant
            n == command@.len(),
            from <= n,
            !done ==> out@ + expanded(command@.skip(from as int), values.deep_view()) == expanded(
                command@,
                values.deep_view(),
            ),
            done ==> out@ == expanded(command@, values.deep_view()),
        decreases n - from + (if done { 0int } else { 1int }),
    {
        let ghost rest = command@.skip(from as int);
        let ghost before = out@;
        let open = find(command, from, '{');
        let close = find(command, from, '}');
        let mut target: Option<usize> = None;
        if open < close && close < n {
            let mut content: Vec<char> = Vec::new();
            push_range(&mut content, command, open + 1, close);
            assert(content@ =~= rest.subrange(open - from + 1, close - from));
            target = parse_number(&content);
        }
        match target {
            Some(number) => {
                push_range(&mut out, command, from, open);
                push_picked(&mut out, values, number);
                proof {
                    assert(command@.subrange(from as int, open as int) =~= rest.take(open - from));
                    assert(rest.skip(close - from + 1) =~= command@.skip(close + 1));
                    assert(out@ + expanded(command@.skip(close + 1), values.deep_view())
                        =~= before + expanded(rest, values.deep_view()));
                }
                from = close + 1;
            },
            None => {
                push_range(&mut out, command, from, n);
                proof {
                    assert(command@.subrange(from as int, n as int) =~= rest);
                    assert(expanded(rest, values.deep_view()) == rest);
                }
                done = true;
            },
        }
    }
    out
}

/// Renders the command that `pattern` stands for with the values of one combination.
pub fn render(pattern: &str, values: &Vec<String>) -> (command: String)
    ensures
        command@ == rendered(pattern@, values.deep_view()),
{
    proof {
        reveal_strlit(" ");
        assert(" "@ =~= seq![' ']);
    }
    let mut command = strip_quotes(&chars_of(pattern));
    let all = chars_of(join(values, " ").as_str());
    let open = find(&command, 0, '{');
    let close = find(&command, 0, '}');
    assert(command@.skip(0) =~= command@);
    if open < close && close < command.len() {
        let with_all = fill(&command, &all);
        string_of(&expand(&with_all, values))
    } else {
        command.push(' ');
        push_range(&mut command, &all, 0, all.len());
        assert(all@.subrange(0, all@.len() as int) =~= all@);
        string_of(&command)
    }
}

/// The number of values of each set.
pub open spec fn sizes(sets: Seq<Seq<Seq<char>>>) -> Seq<nat> {
    sets.map_values(|set: Seq<Seq<char>>| set.len())
}

/// Whether the set declared at `a` goes before the set declared at `b`: the larger set
/// first, and of two sets of one size the one declared first.
pub open spec fn goes_before(sizes: Seq<nat>, a: int, b: int) -> bool {
    sizes[a] > sizes[b] || (sizes[a] == sizes[b] && a < b)
}

/// Whether `order` lists the declared positions of all sets in expansion order.
pub open spec fn is_expansion_order(sizes: Seq<nat>, order: Seq<usize>) -> bool {
    &&& order.len() == sizes.len()
    &&& forall|k: int| 0 <= k < order.len() ==> (#[trigger] order[k]) < sizes.len()
    &&& forall|i: usize| i < sizes.len() ==> #[trigger] order.contains(i)
    &&& forall|j: int, k: int|
        0 <= j < k < order.len() ==> goes_before(
            sizes,
            #[trigger] order[j] as int,
            #[trigger] order[k] as int,
        )
}

/// The expansion order of sets of the given sizes.
pub open spec fn expansion_order(sizes: Seq<nat>) -> Seq<usize> {
    choose|order: Seq<usize>| is_expansion_order(sizes, order)
}

/// Two expansion orders of the same sets agree up to any position.
proof fn lemma_expansion_orders_agree(sizes: Seq<nat>, a: Seq<usize>, b: Seq<usize>, upto: int)
    requires
        is_expansion_order(sizes, a),
        is_expansion_order(sizes, b),
        0 <= upto <= sizes.len(),
    ensures
        forall|k: int| 0 <= k < upto ==> a[k] == b[k],
    decreases upto,
{
    if upto > 0 {
        lemma_expansion_orders_agree(sizes, a, b, upto - 1);
        let k = upto - 1;
        if a[k] != b[k] {
            assert(b.contains(a[k]));
            assert(a.contains(b[k]));
            let p = choose|p: int| 0 <= p < b.len() && b[p] == a[k];
            let q = choose|q: int| 0 <= q < a.len() && a[q] == b[k];
            if p < k {
                assert(a[p] == b[p]);
                assert(goes_before(sizes, a[p] as int, a[k] as int));
            }
            if q < k {
                assert(b[q] == a[q]);
                assert(goes_before(sizes, b[q] as int, b[k] as int));
            }
            assert(goes_before(sizes, b[k] as int, b[p] as int));
            assert(goes_before(sizes, a[k] as int, a[q] as int));
        }
    }
}

/// There is one expansion order only: whatever is one is the one.
pub proof fn lemma_expansion_order_unique(sizes: Seq<nat>, order: Seq<usize>)
    requires
        is_expansion_order(sizes, order),
    ensures
        order == expansion_order(sizes),
{
    let other = expansion_order(sizes);
    lemma_expansion_orders_agree(sizes, order, other, sizes.len() as int);
    assert(order =~= other);
}

/// The test for naming a set with fewer values than `limit`.
pub open spec fn is_smaller(sizes: Seq<nat>, limit: nat) -> spec_fn(usize) -> bool {
    |at: usize| sizes[at as int] < limit
}

/// Sets of any sizes have an expansion order.
pub proof fn lemma_expansion_order_exists(sizes: Seq<nat>)
    requires
        sizes.len() <= usize::MAX,
    ensures
        is_expansion_order(sizes, expansion_order(sizes)),
    decreases sizes.len(),
{
    if sizes.len() == 0 {
        assert(is_expansion_order(sizes, Seq::<usize>::empty()));
    } else {
        let earlier = sizes.drop_last();
        lemma_expansion_order_exists(earlier);
        let before = expansion_order(earlier);
        let last = (sizes.len() - 1) as usize;
        let smaller = is_smaller(earlier, sizes[last as int]);
        let at = position(before, smaller);
        lemma_position(before, smaller);
        let order = before.insert(at, last);
        assert(order.len() == sizes.len());
        assert forall|k: int| 0 <= k < order.len() implies (#[trigger] order[k]) < sizes.len() by {
            if k < at {
                assert(order[k] == before[k]);
            } else if k > at {
                assert(order[k] == before[k - 1]);
            }
        }
        assert forall|i: usize| i < sizes.len() implies #[trigger] order.contains(i) by {
            if i == last {
                assert(order[at] == i);
            } else {
                assert(before.contains(i));
                let k = choose|k: int| 0 <= k < before.len() && before[k] == i;
                if k < at {
                    assert(order[k] == i);
                } else {
                    assert(order[k + 1] == i);
                }
            }
        }
        assert forall|j: int, k: int| 0 <= j < k < order.len() implies goes_before(
            sizes,
            #[trigger] order[j] as int,
            #[trigger] order[k] as int,
        ) by {
            let from_j = if j < at {
                j
            } else {
                j - 1
            };
            let from_k = if k < at {
                k
            } else {
                k - 1
            };
            if j != at {
                assert(order[j] == before[from_j]);
                assert(sizes[before[from_j] as int] == earlier[before[from_j] as int]);
            }
            if k != at {
                assert(order[k] == before[from_k]);
                assert(sizes[before[from_k] as int] == earlier[before[from_k] as int]);
            }
            if j != at && k != at {
                assert(goes_before(earlier, before[from_j] as int, before[from_k] as int));
            } else if k == at {
                assert(!smaller(before[j]));
            } else {
                assert(order[j] == last);
                assert(smaller(before[at]));
                if from_k > at {
                    assert(goes_before(earlier, before[at] as int, before[from_k] as int));
                }
            }
        }
        assert(is_expansion_order(sizes, order));
    }
}

/// Puts the sets in expansion order: the positions of the sets of `vector`, from the
/// set with the most values to the set with the fewest, sets of one size in the order
/// they were declared in.
pub fn orderly_sorter(vector: &Vec<Vec<String>>) -> (order: Vec<usize>)
    ensures
        is_expansion_order(sizes(vector.deep_view()), order@),
        order@ == expansion_order(sizes(vector.deep_view())),
{
    let n = vector.len();
    let ghost all = sizes(vector.deep_view());
    let mut remaining: Vec<usize> = Vec::new();
    let mut i: usize = 0;
    while i < n
        invariant
            i <= n,
            remaining@.len() == i,
            forall|k: int| 0 <= k < i ==> remaining@[k] == k,
        decreases n - i,
    {
        remaining.push(i);
        i = i + 1;
    }
    let mut order: Vec<usize> = Vec::new();
    assert forall|i: usize| i < n implies remaining@.contains(i) by {
        assert(remaining@[i as int] == i);
    }
    while remaining.len() > 0
        invariant
            n == vector@.len(),
            all == sizes(vector.deep_view()),
            all.len() == n,
            order@.len() + remaining@.len() == n,
            forall|k: int| 0 <= k < order@.len() ==> (#[trigger] order@[k]) < n,
            forall|k: int| 0 <= k < remaining@.len() ==> (#[trigger] remaining@[k]) < n,
            forall|j: int, k: int|
                0 <= j < k < remaining@.len() ==> (#[trigger] remaining@[j]) < (
                #[trigger] remaining@[k]),
            forall|i: usize| i < n ==> #[trigger] order@.contains(i) || remaining@.contains(i),
            forall|j: int, k: int|
                0 <= j < k < order@.len() ==> goes_before(
                    all,
                    #[trigger] order@[j] as int,
                    #[trigger] order@[k] as int,
                ),
            forall|j: int, k: int|
                0 <= j < order@.len() && 0 <= k < remaining@.len() ==> goes_before(
                    all,
                    #[trigger] order@[j] as int,
                    #[trigger] remaining@[k] as int,
                ),
        decreases remaining@.len(),
    {
        let m = remaining.len();
        let mut best: usize = 0;
        let mut p: usize = 1;
        while p < m
            invariant
                n == vector@.len(),
                all == sizes(vector.deep_view()),
                m == remaining@.len(),
                0 <= best < p <= m,
                forall|k: int| 0 <= k < remaining@.len() ==> (#[trigger] remaining@[k]) < n,
                forall|j: int, k: int|
                    0 <= j < k < remaining@.len() ==> (#[trigger] remaining@[j]) < (
                    #[trigger] remaining@[k]),
                forall|q: int|
                    0 <= q < p && q != best ==> goes_before(
                        all,
                        remaining@[best as int] as int,
                        #[trigger] remaining@[q] as int,
                    ),
            decreases m - p,
        {
            if vector[remaining[p]].len() > vector[remaining[best]].len() {
                best = p;
            }
            p = p + 1;
        }
        let ghost left = remaining@;
        let ghost placed = order@;
        let chosen = remaining.remove(best);
        order.push(chosen);
        proof {
            assert forall|i: usize| i < n implies #[trigger] order@.contains(i)
                || remaining@.contains(i) by {
                assert(placed.contains(i) || left.contains(i));
                if placed.contains(i) {
                    let k = choose|k: int| 0 <= k < placed.len() && placed[k] == i;
                    assert(order@[k] == i);
                } else {
                    let k = choose|k: int| 0 <= k < left.len() && left[k] == i;
                    if k < best {
                        assert(remaining@[k] == i);
                    } else if k == best {
                        assert(order@[placed.len() as int] == i);
                    } else {
                        assert(remaining@[k - 1] == i);
                    }
                }
            }
            assert forall|j: int, k: int| 0 <= j < k < order@.len() implies goes_before(
                all,
                #[trigger] order@[j] as int,
                #[trigger] order@[k] as int,
            ) by {
                if k == placed.len() {
                    assert(order@[j] == placed[j]);
                    assert(order@[k] == left[best as int]);
                } else {
                    assert(order@[j] == placed[j]);
                    assert(order@[k] == placed[k]);
                }
            }
            assert forall|j: int, k: int|
                0 <= j < order@.len() && 0 <= k < remaining@.len() implies goes_before(
                all,
                #[trigger] order@[j] as int,
                #[trigger] remaining@[k] as int,
            ) by {
                let from = if k < best {
                    k
                } else {
                    k + 1
                };
                assert(remaining@[k] == left[from]);
                if j == placed.len() {
                    assert(order@[j] == left[best as int]);
                } else {
                    assert(order@[j] == placed[j]);
                }
            }
            assert forall|j: int, k: int| 0 <= j < k < remaining@.len() implies (
            #[trigger] remaining@[j]) < (#[trigger] remaining@[k]) by {
                let from_j = if j < best {
                    j
                } else {
                    j + 1
                };
                let from_k = if k < best {
                    k
                } else {
                    k + 1
                };
                assert(remaining@[j] == left[from_j]);
                assert(remaining@[k] == left[from_k]);
            }
        }
    }
    proof {
        assert forall|i: usize| i < all.len() implies #[trigger] order@.contains(i) by {
            assert(order@.contains(i) || remaining@.contains(i));
        }
        lemma_expansion_order_unique(all, order@);
    }
    order
}

/// The combinations of one value from each set, in the order of nested loops with the
/// first set as the outermost loop and the last set as the innermost.
pub open spec fn product(sets: Seq<Seq<Seq<char>>>) -> Seq<Seq<Seq<char>>>
    decreases sets.len(),
{
    if sets.len() == 0 {
        seq![Seq::empty()]
    } else {
        let outer = product(sets.drop_last());
        let inner = sets.last();
        Seq::new(
            outer.len() * inner.len(),
            |i: int| outer[i / inner.len() as int].push(inner[i % inner.len() as int]),
        )
    }
}

/// Every combination holds one value of each set, in the order of the sets.
pub proof fn lemma_product_takes_one_of_each(sets: Seq<Seq<Seq<char>>>, i: int)
    requires
        0 <= i < product(sets).len(),
    ensures
        product(sets)[i].len() == sets.len(),
        forall|k: int| 0 <= k < sets.len() ==> sets[k].contains(#[trigger] product(sets)[i][k]),
    decreases sets.len(),
{
    if sets.len() > 0 {
        let outer = product(sets.drop_last());
        let inner = sets.last();
        let width = inner.len() as int;
        assert(width > 0) by {
            if width == 0 {
                assert(outer.len() * 0 == 0);
            }
        }
        let a = i / width;
        let b = i % width;
        assert(0 <= a < outer.len() && 0 <= b < width) by {
            vstd::arithmetic::div_mod::lemma_fundamental_div_mod(i, width);
            vstd::arithmetic::div_mod::lemma_mod_bound(i, width);
            assert(0 <= a) by (nonlinear_arith)
                requires
                    a == i / width,
                    i >= 0,
                    width > 0,
            ;
            assert(a < outer.len()) by (nonlinear_arith)
                requires
                    i == width * a + b,
                    0 <= b,
                    i < outer.len() * width,
                    width > 0,
            ;
        }
        lemma_product_takes_one_of_each(sets.drop_last(), a);
        let chosen = product(sets)[i];
        assert(chosen == outer[a].push(inner[b]));
        assert forall|k: int| 0 <= k < sets.len() implies sets[k].contains(
            #[trigger] chosen[k],
        ) by {
            if k < sets.len() - 1 {
                assert(chosen[k] == outer[a][k]);
                assert(sets.drop_last()[k] == sets[k]);
            } else {
                assert(chosen[k] == inner[b]);
            }
        }
    }
}

/// The sets of `sets` that `order` names, in that order.
pub open spec fn in_order(sets: Seq<Seq<Seq<char>>>, order: Seq<usize>) -> Seq<Seq<Seq<char>>> {
    Seq::new(order.len(), |k: int| sets[order[k] as int])
}

/// The combinations that the sets of an invocation stand for, in the order in which
/// their jobs are declared. The values of a combination follow the expansion order of
/// the sets.
pub open spec fn combinations(sets: Seq<Seq<Seq<char>>>) -> Seq<Seq<Seq<char>>> {
    product(in_order(sets, expansion_order(sizes(sets))))
}

/// Builds the combinations of one value from each of the sets that `sep_ord` names
/// among `sep_val`, the set named first being the outermost loop.
pub fn build_combinations(sep_ord: &Vec<usize>, sep_val: &Vec<Vec<String>>) -> (builds: Vec<
    Vec<String>,
>)
    requires
        forall|k: int| 0 <= k < sep_ord@.len() ==> (#[trigger] sep_ord@[k]) < sep_val@.len(),
    ensures
        builds.deep_view() == product(in_order(sep_val.deep_view(), sep_ord@)),
{
    let depth = sep_ord.len();
    let ghost sets = in_order(sep_val.deep_view(), sep_ord@);
    let mut builds: Vec<Vec<String>> = Vec::new();
    builds.push(Vec::new());
    assert(sets.take(0) =~= Seq::empty());
    assert(builds.deep_view() =~= product(sets.take(0))) by {
        assert(builds.deep_view()[0] =~= Seq::empty());
    }
    let mut d: usize = 0;
    while d < depth
        invariant
            depth == sep_ord@.len(),
            d <= depth,
            sets == in_order(sep_val.deep_view(), sep_ord@),
            forall|k: int| 0 <= k < sep_ord@.len() ==> (#[trigger] sep_ord@[k]) < sep_val@.len(),
            builds.deep_view() == product(sets.take(d as int)),
        decreases depth - d,
    {
        let values = &sep_val[sep_ord[d]];
        let ghost outer = builds.deep_view();
        let ghost inner = values.deep_view();
        let width = values.len();
        let count = builds.len();
        let mut next: Vec<Vec<String>> = Vec::new();
        let mut a: usize = 0;
        assert(0 * width == 0);
        while a < count
            invariant
                a <= count,
                count == builds@.len(),
                width == values@.len(),
                outer == builds.deep_view(),
                inner == values.deep_view(),
                next@.len() == a * width,
                forall|i: int|
                    0 <= i < next@.len() ==> (#[trigger] next.deep_view()[i]) == outer[i
                        / width as int].push(inner[i % width as int]),
            decreases count - a,
        {
            let mut b: usize = 0;
            while b < width
                invariant
                    a < count,
                    b <= width,
                    count == builds@.len(),
                    width == values@.len(),
                    outer == builds.deep_view(),
                    inner == values.deep_view(),
                    next@.len() == a * width + b,
                    forall|i: int|
                        0 <= i < next@.len() ==> (#[trigger] next.deep_view()[i]) == outer[i
                            / width as int].push(inner[i % width as int]),
                decreases width - b,
            {
                let ghost before = next.deep_view();
                let mut build = clone_strings(&builds[a]);
                let ghost prefix = build.deep_view();
                build.push(values[b].clone());
                assert(build.deep_view() =~= prefix.push(values@[b as int]@));
                next.push(build);
                proof {
                    let at = a * width + b;
                    lemma_fundamental_div_mod_converse(at, width as int, a as int, b as int);
                    assert(next.deep_view()[at] == outer[a as int].push(inner[b as int]));
                    assert forall|i: int| 0 <= i < next@.len() implies (
                    #[trigger] next.deep_view()[i]) == outer[i / width as int].push(
                        inner[i % width as int],
                    ) by {
                        if i < at {
                            assert(next.deep_view()[i] == before[i]);
                        }
                    }
                }
                b = b + 1;
            }
            assert((a + 1) * width == a * width + width) by (nonlinear_arith);
            a = a + 1;
        }
        proof {
            let upto = sets.take(d + 1);
            assert(upto.drop_last() =~= sets.take(d as int));
            assert(upto.last() == inner);
            assert(next.deep_view() =~= product(upto));
        }
        builds = next;
        d = d + 1;
    }
    assert(sets.take(depth as int) =~= sets);
    builds
}

/// One token of an invocation, as the command-line parser hands it over.
#[derive(Debug)]
pub enum Token {
    /// Show the results in the order the jobs were declared in.
    KeepOrder,
    /// Show the jobs and run nothing.
    DryRun,
    /// Run at most this many jobs at once; zero for no limit.
    Jobs(usize),
    /// Listen on this port and serve the requests that come in.
    Server(usize),
    /// Hand the invocation to the server at this host and port.
    Client(String, usize),
    /// Read values from the standard input. Accepted, and without effect.
    Pipe,
    /// Show the usage and stop.
    Help,
    /// The command pattern.
    Command(String),
    /// One set of input values, in the order they were given.
    Separator(Vec<String>),
}

/// What a token is.
pub enum TokenModel {
    KeepOrder,
    DryRun,
    Jobs(usize),
    Server(usize),
    Client(Seq<char>, usize),
    Pipe,
    Help,
    Command(Seq<char>),
    Separator(Seq<Seq<char>>),
}

impl View for Token {
    type V = TokenModel;

    open spec fn view(&self) -> TokenModel {
        match self {
            Token::KeepOrder => TokenModel::KeepOrder,
            Token::DryRun => TokenModel::DryRun,
            Token::Jobs(n) => TokenModel::Jobs(*n),
            Token::Server(port) => TokenModel::Server(*port),
            Token::Client(host, port) => TokenModel::Client(host@, *port),
            Token::Pipe => TokenModel::Pipe,
            Token::Help => TokenModel::Help,
            Token::Command(pattern) => TokenModel::Command(pattern@),
            Token::Separator(values) => TokenModel::Separator(values.deep_view()),
        }
    }
}

/// What each token of `tokens` is.
pub open spec fn token_models(tokens: Seq<Token>) -> Seq<TokenModel> {
    tokens.map_values(|token: Token| token@)
}

/// Why an invocation cannot be carried out as it stands.
#[derive(Debug)]
pub enum InterpretError {
    /// The usage was asked for. Not a failure: show it and stop.
    Help,
    /// There is a command but no value to run it with, and no server to be.
    NoData(String),
    /// The invocation asks to be the server and the client at once.
    BothSourceAndRemote(String),
}

/// What an interpretation error is.
pub enum InterpretErrorModel {
    Help,
    NoData(Seq<char>),
    BothSourceAndRemote(Seq<char>),
}

impl View for InterpretError {
    type V = InterpretErrorModel;

    open spec fn view(&self) -> InterpretErrorModel {
        match self {
            InterpretError::Help => InterpretErrorModel::Help,
            InterpretError::NoData(message) => InterpretErrorModel::NoData(message@),
            InterpretError::BothSourceAndRemote(message) => InterpretErrorModel::BothSourceAndRemote(
                message@,
            ),
        }
    }
}

/// What is said when values are missing.
pub const NO_DATA_MESSAGE: &'static str = "You forgot ::: or to pipe data into parallel";

/// What the tokens of an invocation ask for.
pub struct Settings {
    pub help: bool,
    pub workers: Option<usize>,
    pub dry_run: bool,
    pub keep_order: bool,
    pub listen_port: Option<usize>,
    pub remote: Option<(Seq<char>, usize)>,
    pub command: Seq<char>,
    pub sets: Seq<Seq<Seq<char>>>,
}

impl Settings {
    /// What an invocation without tokens asks for.
    pub open spec fn initial() -> Settings {
        Settings {
            help: false,
            workers: None,
            dry_run: false,
            keep_order: false,
            listen_port: None,
            remote: None,
            command: Seq::empty(),
            sets: Seq::empty(),
        }
    }

    /// The settings with one more token taken in. An option given again replaces what
    /// was given before; each set of values is added to those before it.
    pub open spec fn with(self, token: TokenModel) -> Settings {
        match token {
            TokenModel::KeepOrder => Settings { keep_order: true, ..self },
            TokenModel::DryRun => Settings { dry_run: true, ..self },
            TokenModel::Jobs(n) => Settings { workers: Some(n), ..self },
            TokenModel::Server(port) => Settings { listen_port: Some(port), ..self },
            TokenModel::Client(host, port) => Settings { remote: Some((host, port)), ..self },
            TokenModel::Pipe => self,
            TokenModel::Help => Settings { help: true, ..self },
            TokenModel::Command(pattern) => Settings { command: pattern, ..self },
            TokenModel::Separator(values) => Settings { sets: self.sets.push(values), ..self },
        }
    }

    /// What the tokens ask for, taken in from first to last.
    pub open spec fn of(tokens: Seq<TokenModel>) -> Settings
        decreases tokens.len(),
    {
        if tokens.len() == 0 {
            Settings::initial()
        } else {
            Settings::of(tokens.drop_last()).with(tokens.last())
        }
    }
}

/// The job that runs `command` through `shell`.
pub open spec fn shell_job(shell: Seq<char>, command: Seq<char>) -> JobModel {
    JobModel { program: shell, args: seq!["-c"@, command] }
}

/// The jobs that `pattern` stands for with each of the combinations, in their order.
pub open spec fn jobs_of(
    shell: Seq<char>,
    pattern: Seq<char>,
    combinations: Seq<Seq<Seq<char>>>,
) -> Seq<JobModel> {
    combinations.map_values(|values: Seq<Seq<char>>| shell_job(shell, rendered(pattern, values)))
}

/// What interpreting the tokens makes of a job manager, or why it cannot be done.
///
/// A request for the usage comes before everything. Asking for both roles is refused
/// next, then a command without values unless the invocation is to be a server. Else
/// the jobs of the expansion are added to those the manager has, and the manager is
/// set to run them as the options ask.
pub open spec fn interpreted(manager: JobManagerModel, tokens: Seq<TokenModel>) -> Result<
    JobManagerModel,
    InterpretErrorModel,
> {
    let asked = Settings::of(tokens);
    if asked.help {
        Err(InterpretErrorModel::Help)
    } else if asked.listen_port is Some && asked.remote is Some {
        Err(InterpretErrorModel::BothSourceAndRemote(BOTH_ROLES_MESSAGE@))
    } else if asked.sets.len() == 0 && asked.listen_port is None {
        Err(InterpretErrorModel::NoData(NO_DATA_MESSAGE@))
    } else {
        Ok(
            JobManagerModel {
                jobs: if asked.sets.len() > 0 {
                    manager.jobs + jobs_of(manager.shell, asked.command, combinations(asked.sets))
                } else {
                    manager.jobs
                },
                workers: if asked.workers == Some(0usize) {
                    None
                } else {
                    asked.workers
                },
                dry_run: asked.dry_run,
                keep_order: asked.keep_order,
                listen_port: asked.listen_port,
                remote: asked.remote,
                ..manager
            },
        )
    }
}

/// Adds the job that runs `command` through the shell of the manager.
pub fn create_job(job_man: &mut JobManager, command: &str)
    ensures
        final(job_man)@ == (JobManagerModel {
            jobs: old(job_man)@.jobs.push(shell_job(old(job_man)@.shell, command@)),
            ..old(job_man)@
        }),
{
    let mut new_shell_job: Vec<String> = Vec::new();
    new_shell_job.push(job_man.shell().clone());
    new_shell_job.push(String::from_str("-c"));
    new_shell_job.push(String::from_str(command));
    let job = Job::new(new_shell_job);
    assert(job@.args =~= seq!["-c"@, command@]);
    assert(job@ == shell_job(job_man@.shell, command@));
    job_man.add_job(job);
}

/// Adds one job for each combination, in order: the command pattern rendered with the
/// values of the combination, run through the shell of the manager.
pub fn create_all_jobs(
    job_man: &mut JobManager,
    combinations: &Vec<Vec<String>>,
    command_pattern: String,
)
    ensures
        final(job_man)@ == (JobManagerModel {
            jobs: old(job_man)@.jobs + jobs_of(
                old(job_man)@.shell,
                command_pattern@,
                combinations.deep_view(),
            ),
            ..old(job_man)@
        }),
{
    let n = combinations.len();
    let ghost all = jobs_of(old(job_man)@.shell, command_pattern@, combinations.deep_view());
    let mut i: usize = 0;
    assert(job_man@.jobs =~= old(job_man)@.jobs + all.take(0));
    while i < n
        invariant
            n == combinations@.len(),
            i <= n,
            all == jobs_of(old(job_man)@.shell, command_pattern@, combinations.deep_view()),
            job_man@ == (JobManagerModel {
                jobs: old(job_man)@.jobs + all.take(i as int),
                ..old(job_man)@
            }),
        decreases n - i,
    {
        let command = render(command_pattern.as_str(), &combinations[i]);
        let ghost before = job_man@.jobs;
        create_job(job_man, command.as_str());
        proof {
            assert(all[i as int] == shell_job(old(job_man)@.shell, command@));
            assert(before.push(all[i as int]) =~= old(job_man)@.jobs + all.take(i + 1));
        }
        i = i + 1;
    }
    assert(all.take(n as int) =~= all);
}

/// Once the usage has been asked for, no later token takes that back.
proof fn lemma_help_stays(tokens: Seq<TokenModel>, upto: int)
    requires
        0 <= upto <= tokens.len(),
        Settings::of(tokens.take(upto)).help,
    ensures
        Settings::of(tokens).help,
    decreases tokens.len() - upto,
{
    if upto < tokens.len() {
        assert(tokens.take(upto + 1).drop_last() =~= tokens.take(upto));
        lemma_help_stays(tokens, upto + 1);
    } else {
        assert(tokens.take(upto) =~= tokens);
    }
}

/// Interprets the tokens of an invocation: on success the manager holds the jobs that
/// the invocation stands for, after those it held before, and is set to run them as
/// the options ask; on failure it is left as it was.
pub fn interpret(job_man: &mut JobManager, inputs: &Vec<Token>) -> (out: Result<
    (),
    InterpretError,
>)
    ensures
        match interpreted(old(job_man)@, token_models(inputs@)) {
            Ok(next) => out is Ok && final(job_man)@ == next,
            Err(why) => out is Err && out->Err_0@ == why && final(job_man)@ == old(job_man)@,
        },
{
    let mut nb_thread: Option<usize> = None;
    let mut dry_run: bool = false;
    let mut keep_order: bool = false;
    let mut src_port: Option<usize> = None;
    let mut dst_addr: Option<(String, usize)> = None;
    let mut separators: Vec<Vec<String>> = Vec::new();
    let mut command_pattern: String = String::new();

    let n = inputs.len();
    let ghost tokens = token_models(inputs@);
    let mut i: usize = 0;
    assert(tokens.take(0) =~= Seq::empty());
    assert(separators.deep_view() =~= Seq::empty());
    while i < n
        invariant
            n == inputs@.len(),
            i <= n,
            tokens == token_models(inputs@),
            Settings::of(tokens.take(i as int)) == (Settings {
                help: false,
                workers: nb_thread,
                dry_run,
                keep_order,
                listen_port: src_port,
                remote: match dst_addr {
                    Some((host, port)) => Some((host@, port)),
                    None => None,
                },
                command: command_pattern@,
                sets: separators.deep_view(),
            }),
        decreases n - i,
    {
        proof {
            assert(tokens.take(i + 1).drop_last() =~= tokens.take(i as int));
            assert(tokens.take(i + 1).last() == inputs@[i as int]@);
        }
        match &inputs[i] {
            Token::KeepOrder => {
                keep_order = true;
            },
            Token::DryRun => {
                dry_run = true;
            },
            Token::Jobs(count) => {
                nb_thread = Some(*count);
            },
            Token::Server(port) => {
                src_port = Some(*port);
            },
            Token::Client(host, port) => {
                dst_addr = Some((host.clone(), *port));
            },
            Token::Pipe => {},
            Token::Help => {
                proof {
                    lemma_help_stays(tokens, i + 1);
                }
                return Err(InterpretError::Help);
            },
            Token::Command(pattern) => {
                command_pattern = pattern.clone();
            },
            Token::Separator(values) => {
                let ghost before = separators.deep_view();
                separators.push(clone_strings(values));
                assert(separators.deep_view() =~= before.push(values.deep_view()));
            },
        }
        i = i + 1;
    }
    assert(tokens.take(n as int) =~= tokens);

    if src_port.is_some() && dst_addr.is_some() {
        return Err(
            InterpretError::BothSourceAndRemote(ConfigurationError::BothSourceAndRemote.message()),
        );
    }
    if separators.len() > 0 {
        let vec_ordered = orderly_sorter(&separators);
        let combinations = build_combinations(&vec_ordered, &separators);
        create_all_jobs(job_man, &combinations, command_pattern);
    } else if src_port.is_none() {
        return Err(InterpretError::NoData(String::from_str(NO_DATA_MESSAGE)));
    }
    job_man.set_exec_env(nb_thread, dry_run, keep_order, src_port, dst_addr);
    Ok(())
}

/// An invocation that is interpreted leaves the manager with valid settings, so that
/// there is a plan for it.
pub proof fn lemma_interpreted_is_valid(manager: JobManagerModel, tokens: Seq<TokenModel>)
    requires
        interpreted(manager, tokens) is Ok,
    ensures
        interpreted(manager, tokens)->Ok_0.valid(),
        interpreted(manager, tokens)->Ok_0.plan() is Ok,
{
}

/// An invocation that names a port to listen on and a server to hand itself to is
/// refused, wherever in it the two stand and whatever else it holds, unless it asks for
/// the usage. The manager stays as it was.
pub proof fn lemma_both_roles_are_refused(manager: JobManagerModel, tokens: Seq<TokenModel>)
    requires
        exists|i: int| 0 <= i < tokens.len() && #[trigger] tokens[i] is Server,
        exists|i: int| 0 <= i < tokens.len() && #[trigger] tokens[i] is Client,
        forall|i: int| 0 <= i < tokens.len() ==> !(#[trigger] tokens[i] is Help),
    ensures
        interpreted(manager, tokens) == Err::<JobManagerModel, InterpretErrorModel>(
            InterpretErrorModel::BothSourceAndRemote(BOTH_ROLES_MESSAGE@),
        ),
{
    lemma_settings_keep_roles(tokens);
}

/// The settings hold a port to listen on if a token names one, a server to hand over
/// to if a token names one, and ask for the usage only if a token does.
proof fn lemma_settings_keep_roles(tokens: Seq<TokenModel>)
    ensures
        (exists|i: int| 0 <= i < tokens.len() && #[trigger] tokens[i] is Server) ==> Settings::of(
            tokens,
        ).listen_port is Some,
        (exists|i: int| 0 <= i < tokens.len() && #[trigger] tokens[i] is Client) ==> Settings::of(
            tokens,
        ).remote is Some,
        (forall|i: int| 0 <= i < tokens.len() ==> !(#[trigger] tokens[i] is Help)) ==> !Settings::of(
            tokens,
        ).help,
    decreases tokens.len(),
{
    if tokens.len() > 0 {
        let earlier = tokens.drop_last();
        lemma_settings_keep_roles(earlier);
        if exists|i: int| 0 <= i < tokens.len() && #[trigger] tokens[i] is Server {
            let i = choose|i: int| 0 <= i < tokens.len() && #[trigger] tokens[i] is Server;
            if i < earlier.len() {
                assert(earlier[i] is Server);
            }
        }
        if exists|i: int| 0 <= i < tokens.len() && #[trigger] tokens[i] is Client {
            let i = choose|i: int| 0 <= i < tokens.len() && #[trigger] tokens[i] is Client;
            if i < earlier.len() {
                assert(earlier[i] is Client);
            }
        }
        if forall|i: int| 0 <= i < tokens.len() ==> !(#[trigger] tokens[i] is Help) {
            assert forall|i: int| 0 <= i < earlier.len() implies !(#[trigger] earlier[i] is Help) by {
                assert(earlier[i] == tokens[i]);
            }
            assert(!(tokens.last() is Help));
        }
    }
}

/// The token that the words of one option stand for, if they are an option: its name
/// and, for the options that take them, its arguments, neither more nor fewer.
pub open spec fn option_of(given: Seq<Seq<char>>) -> Option<TokenModel> {
    if given.len() == 1 {
        if given[0] == "--keep-order"@ {
            Some(TokenModel::KeepOrder)
        } else if given[0] == "--dry-run"@ {
            Some(TokenModel::DryRun)
        } else if given[0] == "--pipe"@ {
            Some(TokenModel::Pipe)
        } else if given[0] == "--help"@ {
            Some(TokenModel::Help)
        } else {
            None
        }
    } else if given.len() == 2 {
        match number(given[1], usize::MAX as nat) {
            Some(n) => if given[0] == "--jobs"@ || given[0] == "-j"@ {
                Some(TokenModel::Jobs(n as usize))
            } else if given[0] == "--server"@ {
                Some(TokenModel::Server(n as usize))
            } else {
                None
            },
            None => None,
        }
    } else if given.len() == 3 {
        match number(given[2], usize::MAX as nat) {
            Some(n) => if given[0] == "--client"@ {
                Some(TokenModel::Client(given[1], n as usize))
            } else {
                None
            },
            None => None,
        }
    } else {
        None
    }
}

/// Reads one option, written as its name and its arguments with white space between
/// them.
pub fn option_token(text: &str) -> (out: Option<Token>)
    ensures
        match out {
            Some(token) => option_of(words(text@)) == Some(token@),
            None => option_of(words(text@)) is None,
        },
{
    let given = split_words(text);
    assert(forall|i: int| 0 <= i < given@.len() ==> given.deep_view()[i] == given@[i]@);
    if given.len() == 1 {
        let name = given[0].as_str();
        if same_text(name, "--keep-order") {
            Some(Token::KeepOrder)
        } else if same_text(name, "--dry-run") {
            Some(Token::DryRun)
        } else if same_text(name, "--pipe") {
            Some(Token::Pipe)
        } else if same_text(name, "--help") {
            Some(Token::Help)
        } else {
            None
        }
    } else if given.len() == 2 {
        let name = given[0].as_str();
        match parse_number(&chars_of(given[1].as_str())) {
            Some(n) => if same_text(name, "--jobs") || same_text(name, "-j") {
                Some(Token::Jobs(n))
            } else if same_text(name, "--server") {
                Some(Token::Server(n))
            } else {
                None
            },
            None => None,
        }
    } else if given.len() == 3 {
        match parse_number(&chars_of(given[2].as_str())) {
            Some(n) => if same_text(given[0].as_str(), "--client") {
                Some(Token::Client(given[1].clone(), n))
            } else {
                None
            },
            None => None,
        }
    } else {
        None
    }
}

/// One input of a set of values, as it was written.
#[derive(Debug)]
pub enum Input {
    /// A quoted text: one value, as it stands.
    Text(String),
    /// A run of plain words: each word is a value.
    Words(String),
}

/// What an input is.
pub enum InputModel {
    Text(Seq<char>),
    Words(Seq<char>),
}

impl View for Input {
    type V = InputModel;

    open spec fn view(&self) -> InputModel {
        match self {
            Input::Text(text) => InputModel::Text(text@),
            Input::Words(run) => InputModel::Words(run@),
        }
    }
}

/// What each input of `inputs` is.
pub open spec fn input_models(inputs: Seq<Input>) -> Seq<InputModel> {
    inputs.map_values(|input: Input| input@)
}

/// The values that the inputs of one set give, in order.
pub open spec fn values_of(inputs: Seq<InputModel>) -> Seq<Seq<char>>
    decreases inputs.len(),
{
    if inputs.len() == 0 {
        Seq::empty()
    } else {
        values_of(inputs.drop_last()) + match inputs.last() {
            InputModel::Text(text) => seq![text],
            InputModel::Words(run) => words(run),
        }
    }
}

/// Makes the token of one set of values out of its inputs.
pub fn separator_token(inputs: &Vec<Input>) -> (token: Token)
    ensures
        token@ == TokenModel::Separator(values_of(input_models(inputs@))),
{
    let n = inputs.len();
    let ghost all = input_models(inputs@);
    let mut values: Vec<String> = Vec::new();
    let mut i: usize = 0;
    assert(all.take(0) =~= Seq::empty());
    assert(values.deep_view() =~= Seq::empty());
    while i < n
        invariant
            n == inputs@.len(),
            i <= n,
            all == input_models(inputs@),
            values.deep_view() == values_of(all.take(i as int)),
        decreases n - i,
    {
        let ghost before = values.deep_view();
        proof {
            assert(all.take(i + 1).drop_last() =~= all.take(i as int));
            assert(all.take(i + 1).last() == inputs@[i as int]@);
        }
        match &inputs[i] {
            Input::Text(text) => {
                values.push(text.clone());
                assert(values.deep_view() =~= before + seq![text@]);
            },
            Input::Words(run) => {
                let mut found = split_words(run.as_str());
                let ghost more = found.deep_view();
                values.append(&mut found);
                assert(values.deep_view() =~= before + more);
            },
        }
        i = i + 1;
    }
    assert(all.take(n as int) =~= all);
    Token::Separator(values)
}

} // verus!
