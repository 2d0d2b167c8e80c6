use vstd::prelude::*;
use itertools::Itertools;
use vstd::arithmetic::div_mod::{lemma_fundamental_div_mod, lemma_div_multiples_vanish, lemma_mod_multiples_basic};

verus! {

// ---------------------------------------------------------------------------
// Operator sequences
// ---------------------------------------------------------------------------

/// The words over `symbols` that start with one of the first `k` symbols,
/// each followed by a word of `rest`, grouped by that first symbol.
pub open spec fn prefixed_words(symbols: Seq<char>, k: int, rest: Seq<Seq<char>>) -> Seq<Seq<char>>
    decreases k,
{
    if k <= 0 {
        Seq::empty()
    } else {
        prefixed_words(symbols, k - 1, rest) + rest.map_values(|w: Seq<char>| seq![symbols[k - 1]] + w)
    }
}

/// All words of length `n` over `symbols`, in lexicographic order of the
/// symbols' positions.
pub open spec fn op_words(symbols: Seq<char>, n: nat) -> Seq<Seq<char>>
    decreases n,
{
    if n == 0 {
        seq![Seq::<char>::empty()]
    } else {
        prefixed_words(symbols, symbols.len() as int, op_words(symbols, (n - 1) as nat))
    }
}

/// `String::push` from std: appends `c` at the end of `s`.
#[verifier::external_body]
fn push_char(s: &mut String, c: char)
    ensures
        final(s)@ == old(s)@.push(c),
{
    s.push(c);
}

/// Every word of length `n` over `symbols`: `symbols.len()^n` strings.
pub fn mk_ops(symbols: &[char], n: usize) -> (r: Vec<String>)
    ensures
        r@.map_values(|s: String| s@) == op_words(symbols@, n as nat),
    decreases n,
{
    if n == 0 {
        let mut base: Vec<String> = Vec::new();
        base.push(String::new());
        assert(base@.map_values(|s: String| s@) =~= seq![Seq::<char>::empty()]);
        return base;
    }
    let rest = mk_ops(symbols, n - 1);
    let ghost rest_words = op_words(symbols@, (n - 1) as nat);
    let mut result: Vec<String> = Vec::new();
    let mut i: usize = 0;
    while i < symbols.len()
        invariant
            0 <= i <= symbols@.len(),
            rest@.map_values(|s: String| s@) == rest_words,
            result@.map_values(|s: String| s@) == prefixed_words(symbols@, i as int, rest_words),
        decreases symbols@.len() - i,
    {
        let symbol = symbols[i];
        let ghost before = result@.map_values(|s: String| s@);
        let mut j: usize = 0;
        while j < rest.len()
            invariant
                0 <= j <= rest@.len(),
                i < symbols@.len(),
                symbol == symbols@[i as int],
                rest@.map_values(|s: String| s@) == rest_words,
                before == prefixed_words(symbols@, i as int, rest_words),
                result@.map_values(|s: String| s@) == before + rest_words.take(j as int).map_values(
                    |w: Seq<char>| seq![symbol] + w,
                ),
            decreases rest@.len() - j,
        {
            let mut word = String::new();
            push_char(&mut word, symbol);
            word.append(rest[j].as_str());
            assert(rest_words[j as int] == rest@[j as int]@);
            assert(word@ =~= seq![symbol] + rest_words[j as int]);
            let ghost prev = result@;
            result.push(word);
            assert(result@.map_values(|s: String| s@) =~= prev.map_values(|s: String| s@).push(word@));
            assert(rest_words.take(j + 1).map_values(|w: Seq<char>| seq![symbol] + w) =~= rest_words.take(
                j as int,
            ).map_values(|w: Seq<char>| seq![symbol] + w).push(seq![symbol] + rest_words[j as int]));
            assert(result@.map_values(|s: String| s@) =~= before + rest_words.take(j + 1).map_values(
                |w: Seq<char>| seq![symbol] + w,
            ));
            j += 1;
        }
        assert(rest_words.take(rest@.len() as int) =~= rest_words);
        i += 1;
    }
    result
}

} // verus!

verus! {

/// `prefixed_words` holds `rest.len()` words for each of the `k` symbols.
proof fn lemma_prefixed_words_len(symbols: Seq<char>, k: int, rest: Seq<Seq<char>>)
    requires
        0 <= k,
    ensures
        prefixed_words(symbols, k, rest).len() == k * rest.len(),
    decreases k,
{
    if k > 0 {
        lemma_prefixed_words_len(symbols, k - 1, rest);
        assert(prefixed_words(symbols, k, rest).len() == prefixed_words(symbols, k - 1, rest).len()
            + rest.len());
        assert((k - 1) * rest.len() + rest.len() == k * rest.len()) by (nonlinear_arith);
    } else {
        assert(0 * rest.len() == 0) by (nonlinear_arith);
    }
}

/// There are `symbols.len()` to the power `n` words of length `n`.
pub proof fn law_op_words_count(symbols: Seq<char>, n: nat)
    ensures
        op_words(symbols, n).len() == vstd::arithmetic::power::pow(symbols.len() as int, n),
    decreases n,
{
    reveal(vstd::arithmetic::power::pow);
    if n > 0 {
        law_op_words_count(symbols, (n - 1) as nat);
        lemma_prefixed_words_len(symbols, symbols.len() as int, op_words(symbols, (n - 1) as nat));
    }
}

/// Every word of length `n` has `n` symbols, each taken from `symbols`.
pub proof fn law_op_words_shape(symbols: Seq<char>, n: nat, i: int)
    requires
        0 <= i < op_words(symbols, n).len(),
    ensures
        op_words(symbols, n)[i].len() == n,
        forall|p: int| 0 <= p < n ==> symbols.contains(#[trigger] op_words(symbols, n)[i][p]),
    decreases n, symbols.len() + 1,
{
    if n > 0 {
        let rest = op_words(symbols, (n - 1) as nat);
        lemma_prefixed_words_shape(symbols, symbols.len() as int, rest, n, i);
    }
}

proof fn lemma_prefixed_words_shape(symbols: Seq<char>, k: int, rest: Seq<Seq<char>>, n: nat, i: int)
    requires
        n > 0,
        rest == op_words(symbols, (n - 1) as nat),
        0 <= k <= symbols.len(),
        0 <= i < prefixed_words(symbols, k, rest).len(),
    ensures
        prefixed_words(symbols, k, rest)[i].len() == n,
        forall|p: int| 0 <= p < n ==> symbols.contains(#[trigger] prefixed_words(symbols, k, rest)[i][p]),
    decreases n, k,
{
    let pre = prefixed_words(symbols, k - 1, rest);
    if i < pre.len() {
        lemma_prefixed_words_shape(symbols, k - 1, rest, n, i);
    } else {
        let w = rest[i - pre.len()];
        law_op_words_shape(symbols, (n - 1) as nat, i - pre.len());
        assert(prefixed_words(symbols, k, rest)[i] == seq![symbols[k - 1]] + w);
        assert forall|p: int| 0 <= p < n implies symbols.contains(#[trigger] prefixed_words(symbols, k, rest)[i][p]) by {
            if p == 0 {
                assert(symbols[k - 1] == prefixed_words(symbols, k, rest)[i][p]);
            } else {
                assert(w[p - 1] == prefixed_words(symbols, k, rest)[i][p]);
            }
        }
    }
}

} // verus!

verus! {

// ---------------------------------------------------------------------------
// Candidate expressions
// ---------------------------------------------------------------------------

/// The `k`-permutations of `items`, in lexicographic order of the
/// positions they take: first those starting with `items[0]`, followed by
/// each `(k - 1)`-permutation of the other items, then those starting with
/// `items[1]`, and so on. There is one empty permutation for `k == 0` and
/// none when `k` exceeds the number of items.
pub open spec fn k_permutations(items: Seq<char>, k: nat) -> Seq<Seq<char>>
    decreases k, items.len() + 1,
{
    if k == 0 {
        seq![Seq::<char>::empty()]
    } else {
        permutations_starting(items, k, items.len() as int)
    }
}

/// The `k`-permutations of `items` that start with one of the first `i`
/// items, in the order of `k_permutations`.
pub open spec fn permutations_starting(items: Seq<char>, k: nat, i: int) -> Seq<Seq<char>>
    decreases k, i,
{
    if i <= 0 || k == 0 || i > items.len() {
        Seq::empty()
    } else {
        permutations_starting(items, k, i - 1) + k_permutations(items.remove(i - 1), (k - 1) as nat).map_values(
            |p: Seq<char>| seq![items[i - 1]] + p,
        )
    }
}

/// The number of `k`-permutations of `n` items: `n * (n - 1) * ... * (n - k + 1)`.
pub open spec fn falling(n: nat, k: nat) -> nat
    decreases k,
{
    if k == 0 {
        1
    } else if n == 0 {
        0
    } else {
        n * falling((n - 1) as nat, (k - 1) as nat)
    }
}

/// `Itertools::permutations` (itertools) on the characters of `s`,
/// collected: all `k`-permutations in lexicographic order of positions, as
/// its documentation shows.
#[verifier::external_body]
fn char_permutations(s: &str, k: usize) -> (r: Vec<Vec<char>>)
    ensures
        r@.map_values(|p: Vec<char>| p@) == k_permutations(s@, k as nat),
{
    s.chars().permutations(k).collect()
}

/// There are `falling(n, k)` `k`-permutations of `n` items.
pub proof fn law_k_permutations_count(items: Seq<char>, k: nat)
    ensures
        k_permutations(items, k).len() == falling(items.len(), k),
    decreases k, items.len() + 1,
{
    if k > 0 {
        lemma_permutations_starting_count(items, k, items.len() as int);
        if items.len() > 0 {
            assert(items.len() * falling((items.len() - 1) as nat, (k - 1) as nat) == falling(items.len(), k));
        } else {
            assert(0 * falling(0, (k - 1) as nat) == 0) by (nonlinear_arith);
        }
    }
}

proof fn lemma_permutations_starting_count(items: Seq<char>, k: nat, i: int)
    requires
        k > 0,
        0 <= i <= items.len(),
    ensures
        permutations_starting(items, k, i).len() == i * falling((items.len() - 1) as nat, (k - 1) as nat),
    decreases k, i,
{
    let f = falling((items.len() - 1) as nat, (k - 1) as nat);
    if i > 0 {
        lemma_permutations_starting_count(items, k, i - 1);
        law_k_permutations_count(items.remove(i - 1), (k - 1) as nat);
        assert(items.remove(i - 1).len() == items.len() - 1);
        assert((i - 1) * f + f == i * f) by (nonlinear_arith);
    } else {
        assert(0 * f == 0) by (nonlinear_arith);
    }
}

/// The first `n` digits of `digits`, each followed by the operator at the
/// same position in `ops` while there is one.
pub open spec fn interleave(digits: Seq<char>, ops: Seq<char>, n: int) -> Seq<char>
    decreases n,
{
    if n <= 0 {
        Seq::empty()
    } else {
        interleave(digits, ops, n - 1) + seq![digits[n - 1]] + if n - 1 < ops.len() {
            seq![ops[n - 1]]
        } else {
            Seq::empty()
        }
    }
}

/// For each of the first `n` digit sequences in turn, its interleavings with
/// every operator sequence, in the order of `ops`.
pub open spec fn arrangements(perms: Seq<Seq<char>>, ops: Seq<Seq<char>>, n: int) -> Seq<Seq<char>>
    decreases n,
{
    if n <= 0 {
        Seq::empty()
    } else {
        arrangements(perms, ops, n - 1) + ops.map_values(
            |o: Seq<char>| interleave(perms[n - 1], o, perms[n - 1].len() as int),
        )
    }
}

/// The expression that alternates the characters of `digits` with the
/// operators of `ops`: a digit, then its operator while any is left.
fn interleave_one(digits: &Vec<char>, ops: &String) -> (r: String)
    ensures
        r@ == interleave(digits@, ops@, digits@.len() as int),
{
    let n_ops = ops.as_str().unicode_len();
    let mut s = String::new();
    let mut k: usize = 0;
    while k < digits.len()
        invariant
            0 <= k <= digits@.len(),
            n_ops == ops@.len(),
            s@ == interleave(digits@, ops@, k as int),
        decreases digits@.len() - k,
    {
        push_char(&mut s, digits[k]);
        if k < n_ops {
            let op = ops.as_str().get_char(k);
            push_char(&mut s, op);
        }
        assert(s@ =~= interleave(digits@, ops@, k + 1));
        k += 1;
    }
    s
}

/// Every digit sequence of `perms` interleaved with every operator sequence
/// of `ops`: the digit sequences in order, and for each of them the
/// operator sequences in order.
pub fn interleave_all(perms: &Vec<Vec<char>>, ops: &Vec<String>) -> (r: Vec<String>)
    ensures
        r@.map_values(|s: String| s@) == arrangements(
            perms@.map_values(|p: Vec<char>| p@),
            ops@.map_values(|o: String| o@),
            perms@.len() as int,
        ),
{
    let ghost ps = perms@.map_values(|p: Vec<char>| p@);
    let ghost os = ops@.map_values(|o: String| o@);
    let mut result: Vec<String> = Vec::new();
    let mut i: usize = 0;
    while i < perms.len()
        invariant
            0 <= i <= perms@.len(),
            ps == perms@.map_values(|p: Vec<char>| p@),
            os == ops@.map_values(|o: String| o@),
            result@.map_values(|s: String| s@) == arrangements(ps, os, i as int),
        decreases perms@.len() - i,
    {
        let ghost before = result@.map_values(|s: String| s@);
        let ghost f = |o: Seq<char>| interleave(ps[i as int], o, ps[i as int].len() as int);
        let mut j: usize = 0;
        while j < ops.len()
            invariant
                0 <= j <= ops@.len(),
                i < perms@.len(),
                ps == perms@.map_values(|p: Vec<char>| p@),
                os == ops@.map_values(|o: String| o@),
                f == (|o: Seq<char>| interleave(ps[i as int], o, ps[i as int].len() as int)),
                before == arrangements(ps, os, i as int),
                result@.map_values(|s: String| s@) == before + os.take(j as int).map_values(f),
            decreases ops@.len() - j,
        {
            let s = interleave_one(&perms[i], &ops[j]);
            let ghost prev = result@;
            result.push(s);
            assert(result@.map_values(|s: String| s@) =~= prev.map_values(|s: String| s@).push(s@));
            assert(os.take(j + 1).map_values(f) =~= os.take(j as int).map_values(f).push(f(os[j as int])));
            j += 1;
        }
        assert(os.take(ops@.len() as int) =~= os);
        i += 1;
    }
    result
}

/// The expressions that `prepare` lists for `s`: every `k`-permutation of
/// its characters, with `k` the byte length of `s`, interleaved with every
/// word of four operators out of `+ - * /`.
pub open spec fn prepared(s: &str) -> Seq<Seq<char>> {
    let perms = k_permutations(s@, s.len() as nat);
    arrangements(perms, op_words(seq!['+', '-', '*', '/'], 4), perms.len() as int)
}

/// Lists every candidate expression over the characters of `s`: each
/// permutation of them, interleaved with each sequence of four operators.
pub fn prepare(s: &str) -> (r: Vec<String>)
    ensures
        r@.map_values(|e: String| e@) == prepared(s),
{
    let k = s.len();
    let perms = char_permutations(s, k);
    let symbols = ['+', '-', '*', '/'];
    let ops = mk_ops(symbols.as_slice(), 4);
    assert(symbols@ =~= seq!['+', '-', '*', '/']);
    let r = interleave_all(&perms, &ops);
    assert(perms@.map_values(|p: Vec<char>| p@).len() == perms@.len());
    r
}

} // verus!

verus! {

// ---------------------------------------------------------------------------
// Checking candidate expressions
// ---------------------------------------------------------------------------

/// A character `to_digit(10)` accepts.
pub open spec fn is_decimal_digit(c: char) -> bool {
    '0' <= c && c <= '9'
}

/// The value of a decimal digit character.
pub open spec fn digit_value(c: char) -> int {
    c as int - '0' as int
}

/// How many operator/digit pairs follow the first digit of `e`.
pub open spec fn pair_count(e: Seq<char>) -> int {
    (e.len() - 1) / 2
}

/// The evaluation state `(sum so far, current term, rejected)` after one
/// more operator `op` applied to the digit value `d`: `*` and `/` act on the
/// current term, `+` and `-` close it and start a new one, and a division by
/// zero or with a remainder rejects the expression. Other operators change
/// nothing.
pub open spec fn eval_step(state: (int, int, bool), op: char, d: int) -> (int, int, bool) {
    if op == '*' {
        (state.0, state.1 * d, false)
    } else if op == '/' {
        if d == 0 || state.1 % d != 0 {
            (state.0, state.1, true)
        } else {
            (state.0, state.1 / d, false)
        }
    } else if op == '-' {
        (state.0 + state.1, -d, false)
    } else if op == '+' {
        (state.0 + state.1, d, false)
    } else {
        state
    }
}

/// The evaluation state after the first `j` operator/digit pairs of `e`
/// (operators at odd positions, digits at even ones); it stops changing
/// once the expression is rejected.
pub open spec fn eval_after(e: Seq<char>, j: nat) -> (int, int, bool)
    decreases j,
{
    if j == 0 {
        (0, digit_value(e[0]), false)
    } else {
        let prev = eval_after(e, (j - 1) as nat);
        if prev.2 {
            prev
        } else {
            eval_step(prev, e[2 * j - 1], digit_value(e[2 * j as int]))
        }
    }
}

/// The expression is accepted and its value, with the usual precedence of
/// `*` and `/` over `+` and `-`, is 10.
pub open spec fn makes_ten(e: Seq<char>) -> bool {
    let st = eval_after(e, pair_count(e) as nat);
    !st.2 && st.0 + st.1 == 10
}

pub open spec fn fits_i64(x: int) -> bool {
    i64::MIN <= x <= i64::MAX
}

/// `verify` can evaluate `e` without a panic: it is not empty, every digit
/// that the evaluation reaches is a decimal digit, and every intermediate
/// value fits in an `i64`.
pub open spec fn checkable(e: Seq<char>) -> bool {
    &&& e.len() >= 1
    &&& is_decimal_digit(e[0])
    &&& forall|j: nat|
        1 <= j <= pair_count(e) && !(#[trigger] eval_after(e, (j - 1) as nat)).2 ==> is_decimal_digit(
            e[2 * j as int],
        )
    &&& forall|j: nat|
        j <= pair_count(e) ==> fits_i64((#[trigger] eval_after(e, j)).0) && fits_i64(eval_after(e, j).1)
    &&& !eval_after(e, pair_count(e) as nat).2 ==> fits_i64(
        eval_after(e, pair_count(e) as nat).0 + eval_after(e, pair_count(e) as nat).1,
    )
}

/// Once rejected, an evaluation stays rejected.
proof fn lemma_rejected_stays(e: Seq<char>, j: nat, k: nat)
    requires
        j <= k,
        eval_after(e, j).2,
    ensures
        eval_after(e, k) == eval_after(e, j),
    decreases k - j,
{
    if j < k {
        lemma_rejected_stays(e, j, (k - 1) as nat);
    }
}

/// Rust's `%` and `/` on a negative dividend act on its magnitude; for a
/// positive divisor they agree with the Euclidean operators on divisibility
/// and, when it divides, on the quotient.
proof fn lemma_truncated_division(a: int, b: int)
    requires
        a < 0,
        b > 0,
    ensures
        ((-a) % b == 0) == (a % b == 0),
        (-a) % b == 0 ==> -((-a) / b) == a / b,
{
    lemma_fundamental_div_mod(a, b);
    lemma_fundamental_div_mod(-a, b);
    if (-a) % b == 0 {
        let k = (-a) / b;
        assert(-a == b * k);
        assert(a == b * (-k)) by (nonlinear_arith)
            requires
                -a == b * k,
        ;
        lemma_div_multiples_vanish(-k, b);
        lemma_mod_multiples_basic(-k, b);
        assert((-k) * b == b * (-k)) by (nonlinear_arith);
    }
    if a % b == 0 {
        let k = a / b;
        assert(a == b * k);
        assert(-a == b * (-k)) by (nonlinear_arith)
            requires
                a == b * k,
        ;
        lemma_mod_multiples_basic(-k, b);
        assert((-k) * b == b * (-k)) by (nonlinear_arith);
    }
}

fn digit_of(c: char) -> (d: i64)
    requires
        is_decimal_digit(c),
    ensures
        d == digit_value(c),
        0 <= d <= 9,
{
    ((c as u32) - ('0' as u32)) as i64
}

/// Whether the expression `e` evaluates to 10.
fn evaluates_to_ten(e: &str) -> (b: bool)
    requires
        checkable(e@),
    ensures
        b == makes_ten(e@),
{
    let len = e.unicode_len();
    let pairs = (len - 1) / 2;
    let mut result: i64 = 0;
    let mut term: i64 = digit_of(e.get_char(0));
    let mut j: usize = 0;
    assert(eval_after(e@, 0) == (0int, term as int, false));
    while j < pairs
        invariant
            len == e@.len(),
            pairs == pair_count(e@),
            checkable(e@),
            0 <= j <= pairs,
            eval_after(e@, j as nat) == (result as int, term as int, false),
        decreases pairs - j,
    {
        let op = e.get_char(2 * j + 1);
        assert(!eval_after(e@, ((j + 1) - 1) as nat).2);
        let num = digit_of(e.get_char(2 * j + 2));
        let ghost next = eval_after(e@, (j + 1) as nat);
        assert(next == eval_step((result as int, term as int, false), op, num as int));
        assert(fits_i64(next.0) && fits_i64(next.1));
        if op == '/' && num > 0 && term < 0 {
            proof {
                lemma_truncated_division(term as int, num as int);
            }
        }
        if op == '*' {
            term = term * num;
        } else if op == '/' {
            if num == 0 || term % num != 0 {
                proof {
                    lemma_rejected_stays(e@, (j + 1) as nat, pairs as nat);
                }
                return false;
            }
            term = term / num;
        } else if op == '-' {
            result = result + term;
            term = -num;
        } else if op == '+' {
            result = result + term;
            term = num;
        }
        j += 1;
    }
    result = result + term;
    result == 10
}

fn is_digit_char(c: char) -> (b: bool)
    ensures
        b == is_decimal_digit(c),
{
    '0' <= c && c <= '9'
}

/// Whether `verify` can evaluate `e` without a panic (see `checkable`).
pub fn checkable_expression(e: &str) -> (b: bool)
    ensures
        b == checkable(e@),
{
    let len = e.unicode_len();
    if len == 0 {
        return false;
    }
    let first = e.get_char(0);
    if !is_digit_char(first) {
        return false;
    }
    let pairs = (len - 1) / 2;
    let mut result: i64 = 0;
    let mut term: i64 = digit_of(first);
    let mut j: usize = 0;
    assert(eval_after(e@, 0) == (0int, term as int, false));
    while j < pairs
        invariant
            len == e@.len(),
            len >= 1,
            is_decimal_digit(e@[0]),
            pairs == pair_count(e@),
            0 <= j <= pairs,
            eval_after(e@, j as nat) == (result as int, term as int, false),
            forall|k: nat| k <= j ==> fits_i64((#[trigger] eval_after(e@, k)).0) && fits_i64(eval_after(e@, k).1),
            forall|k: nat| 1 <= k <= j && !(#[trigger] eval_after(e@, (k - 1) as nat)).2 ==> is_decimal_digit(
                e@[2 * k as int],
            ),
        decreases pairs - j,
    {
        let op = e.get_char(2 * j + 1);
        let c = e.get_char(2 * j + 2);
        let ghost jn = (j + 1) as nat;
        assert(eval_after(e@, (jn - 1) as nat) == eval_after(e@, j as nat));
        if !is_digit_char(c) {
            assert(!checkable(e@)) by {
                assert(!eval_after(e@, (jn - 1) as nat).2);
            }
            return false;
        }
        let num = digit_of(c);
        let ghost next = eval_after(e@, jn);
        assert(next == eval_step((result as int, term as int, false), op, num as int));
        if op == '/' && num > 0 && term < 0 {
            proof {
                lemma_truncated_division(term as int, num as int);
            }
        }
        if op == '*' {
            match term.checked_mul(num) {
                Some(t) => term = t,
                None => {
                    assert(!fits_i64(eval_after(e@, jn).1));
                    return false;
                },
            }
        } else if op == '/' {
            if num == 0 || term % num != 0 {
                proof {
                    assert forall|k: nat| k <= pair_count(e@) implies fits_i64((#[trigger] eval_after(e@, k)).0)
                        && fits_i64(eval_after(e@, k).1) by {
                        if k > j {
                            lemma_rejected_stays(e@, jn, k);
                        }
                    }
                    assert forall|k: nat|
                        1 <= k <= pair_count(e@) && !(#[trigger] eval_after(e@, (k - 1) as nat)).2 implies is_decimal_digit(
                        e@[2 * k as int],
                    ) by {
                        if k > jn {
                            lemma_rejected_stays(e@, jn, (k - 1) as nat);
                        }
                    }
                    lemma_rejected_stays(e@, jn, pairs as nat);
                }
                return true;
            }
            term = term / num;
        } else if op == '-' || op == '+' {
            match result.checked_add(term) {
                Some(r) => result = r,
                None => {
                    assert(!fits_i64(eval_after(e@, jn).0));
                    return false;
                },
            }
            term = if op == '-' { -num } else { num };
        }
        j += 1;
    }
    match result.checked_add(term) {
        Some(_) => true,
        None => false,
    }
}

/// The expressions of `v` that evaluate to 10, in their order in `v`.
/// A division by zero or one that leaves a remainder rejects an expression.
pub fn verify(v: &[String]) -> (r: Vec<String>)
    requires
        forall|i: int| 0 <= i < v@.len() ==> checkable(#[trigger] v@[i]@),
    ensures
        r@.map_values(|s: String| s@) == v@.map_values(|s: String| s@).filter(|e: Seq<char>| makes_ten(e)),
{
    let ghost vs = v@.map_values(|s: String| s@);
    let ghost pred = |e: Seq<char>| makes_ten(e);
    let mut out: Vec<String> = Vec::new();
    let mut i: usize = 0;
    while i < v.len()
        invariant
            0 <= i <= v@.len(),
            vs == v@.map_values(|s: String| s@),
            pred == (|e: Seq<char>| makes_ten(e)),
            forall|k: int| 0 <= k < v@.len() ==> checkable(#[trigger] v@[k]@),
            out@.map_values(|s: String| s@) == vs.take(i as int).filter(pred),
        decreases v@.len() - i,
    {
        let s = &v[i];
        let keep = evaluates_to_ten(s.as_str());
        let ghost prev = out@;
        assert(vs.take(i + 1).drop_last() =~= vs.take(i as int));
        reveal_with_fuel(Seq::<_>::filter, 1);
        if keep {
            out.push(s.clone());
            assert(out@.map_values(|s: String| s@) =~= prev.map_values(|s: String| s@).push(s@));
        }
        i += 1;
    }
    assert(vs.take(v@.len() as int) =~= vs);
    out
}

} // verus!

verus! {

/// A division is kept only when it is exact: when the step for `/` by `d`
/// does not reject, `d` is not zero, it divides the current term whatever
/// the term's sign, and the new term times `d` gives the old term back.
pub proof fn law_division_is_exact(state: (int, int, bool), d: int)
    ensures
        !eval_step(state, '/', d).2 ==> d != 0 && state.1 % d == 0 && eval_step(state, '/', d).1 * d == state.1,
{
    if d != 0 && state.1 % d == 0 {
        lemma_fundamental_div_mod(state.1, d);
        let q = state.1 / d;
        assert(q * d == d * q) by (nonlinear_arith);
    }
}

/// Every expression that `verify` keeps divides exactly at each `/`: the
/// digit after it is not zero and divides the term it applies to.
pub proof fn law_kept_expressions_divide_exactly(e: Seq<char>, j: nat)
    requires
        makes_ten(e),
        1 <= j <= pair_count(e),
        e[2 * j - 1] == '/',
    ensures
        digit_value(e[2 * j as int]) != 0,
        eval_after(e, (j - 1) as nat).1 % digit_value(e[2 * j as int]) == 0,
        eval_after(e, j).1 * digit_value(e[2 * j as int]) == eval_after(e, (j - 1) as nat).1,
{
    if eval_after(e, j).2 {
        lemma_rejected_stays(e, j, pair_count(e) as nat);
    }
    let prev = eval_after(e, (j - 1) as nat);
    if prev.2 {
        assert(eval_after(e, j) == prev);
    }
    law_division_is_exact(prev, digit_value(e[2 * j as int]));
}

/// `arrangements` yields one expression per digit sequence and operator
/// sequence.
pub proof fn law_arrangements_count(perms: Seq<Seq<char>>, ops: Seq<Seq<char>>, n: int)
    requires
        0 <= n,
    ensures
        arrangements(perms, ops, n).len() == n * ops.len(),
    decreases n,
{
    if n > 0 {
        law_arrangements_count(perms, ops, n - 1);
        assert((n - 1) * ops.len() + ops.len() == n * ops.len()) by (nonlinear_arith);
    } else {
        assert(0 * ops.len() == 0) by (nonlinear_arith);
    }
}

/// The word at position `m * rest.len() + j` of `prefixed_words` is the
/// `m`-th symbol followed by the `j`-th word of `rest`.
proof fn lemma_prefixed_words_index(symbols: Seq<char>, k: int, rest: Seq<Seq<char>>, m: int, j: int)
    requires
        0 <= m < k,
        0 <= j < rest.len(),
    ensures
        m * rest.len() + j < prefixed_words(symbols, k, rest).len(),
        prefixed_words(symbols, k, rest)[m * rest.len() + j] == seq![symbols[m]] + rest[j],
    decreases k,
{
    lemma_prefixed_words_len(symbols, k, rest);
    lemma_prefixed_words_len(symbols, k - 1, rest);
    let pre = prefixed_words(symbols, k - 1, rest);
    if m == k - 1 {
        assert(prefixed_words(symbols, k, rest)[m * rest.len() + j] == rest.map_values(
            |w: Seq<char>| seq![symbols[k - 1]] + w,
        )[j]);
    } else {
        lemma_prefixed_words_index(symbols, k - 1, rest, m, j);
        assert(m * rest.len() + j < (k - 1) * rest.len()) by (nonlinear_arith)
            requires
                0 <= m < k - 1,
                0 <= j < rest.len(),
        ;
        assert(prefixed_words(symbols, k, rest)[m * rest.len() + j] == pre[m * rest.len() + j]);
    }
    assert(m * rest.len() + j < k * rest.len()) by (nonlinear_arith)
        requires
            0 <= m < k,
            0 <= j < rest.len(),
    ;
}

/// Every word of length `n` over `symbols` is one of `op_words(symbols, n)`.
pub proof fn law_op_words_cover(symbols: Seq<char>, n: nat, w: Seq<char>)
    requires
        w.len() == n,
        forall|p: int| 0 <= p < n ==> symbols.contains(#[trigger] w[p]),
    ensures
        exists|i: int| 0 <= i < op_words(symbols, n).len() && #[trigger] op_words(symbols, n)[i] == w,
    decreases n,
{
    if n == 0 {
        assert(op_words(symbols, n)[0] =~= w);
    } else {
        let tail = w.drop_first();
        assert forall|p: int| 0 <= p < n - 1 implies symbols.contains(#[trigger] tail[p]) by {
            assert(tail[p] == w[p + 1]);
        }
        law_op_words_cover(symbols, (n - 1) as nat, tail);
        let rest = op_words(symbols, (n - 1) as nat);
        let j = choose|i: int| 0 <= i < rest.len() && #[trigger] rest[i] == tail;
        assert(symbols.contains(w[0]));
        let m = choose|m: int| 0 <= m < symbols.len() && symbols[m] == w[0];
        lemma_prefixed_words_index(symbols, symbols.len() as int, rest, m, j);
        assert(seq![symbols[m]] + rest[j] =~= w);
        assert(op_words(symbols, n)[m * rest.len() + j] == w);
    }
}

/// The expression at position `q * ops.len() + i` of `arrangements` is the
/// `q`-th digit sequence interleaved with the `i`-th operator sequence.
proof fn lemma_arrangements_index(perms: Seq<Seq<char>>, ops: Seq<Seq<char>>, n: int, q: int, i: int)
    requires
        0 <= q < n,
        0 <= i < ops.len(),
    ensures
        q * ops.len() + i < arrangements(perms, ops, n).len(),
        arrangements(perms, ops, n)[q * ops.len() + i] == interleave(perms[q], ops[i], perms[q].len() as int),
    decreases n,
{
    law_arrangements_count(perms, ops, n);
    law_arrangements_count(perms, ops, n - 1);
    if q == n - 1 {
    } else {
        lemma_arrangements_index(perms, ops, n - 1, q, i);
        assert(q * ops.len() + i < (n - 1) * ops.len()) by (nonlinear_arith)
            requires
                0 <= q < n - 1,
                0 <= i < ops.len(),
        ;
    }
    assert(q * ops.len() + i < n * ops.len()) by (nonlinear_arith)
        requires
            0 <= q < n,
            0 <= i < ops.len(),
    ;
}

/// `prepare` tries every operator word: for each permutation of the
/// characters and each word of four operators out of `+ - * /`, one of the
/// expressions is that permutation interleaved with that word.
pub proof fn law_prepared_uses_every_operator_word(s: &str, w: Seq<char>, q: int)
    requires
        w.len() == 4,
        forall|p: int| 0 <= p < 4 ==> (#[trigger] w[p] == '+' || w[p] == '-' || w[p] == '*' || w[p] == '/'),
        0 <= q < k_permutations(s@, s.len() as nat).len(),
    ensures
        exists|i: int|
            0 <= i < prepared(s).len() && #[trigger] prepared(s)[i] == interleave(
                k_permutations(s@, s.len() as nat)[q],
                w,
                k_permutations(s@, s.len() as nat)[q].len() as int,
            ),
{
    let symbols = seq!['+', '-', '*', '/'];
    assert forall|p: int| 0 <= p < 4 implies symbols.contains(#[trigger] w[p]) by {
        if w[p] == '+' {
            assert(symbols[0] == w[p]);
        } else if w[p] == '-' {
            assert(symbols[1] == w[p]);
        } else if w[p] == '*' {
            assert(symbols[2] == w[p]);
        } else {
            assert(symbols[3] == w[p]);
        }
    }
    law_op_words_cover(symbols, 4, w);
    let ops = op_words(symbols, 4);
    let i = choose|i: int| 0 <= i < ops.len() && #[trigger] ops[i] == w;
    let perms = k_permutations(s@, s.len() as nat);
    lemma_arrangements_index(perms, ops, perms.len() as int, q, i);
    assert(prepared(s)[q * ops.len() + i] == interleave(perms[q], w, perms[q].len() as int));
}

/// `prepare` lists each permutation of the characters once per operator
/// word: `falling(n, k) * 256` expressions for `n` characters taking `k`
/// bytes; `5! * 4^4` for five digits.
pub proof fn law_prepared_count(s: &str)
    ensures
        prepared(s).len() == falling(s@.len(), s.len() as nat) * 256,
{
    law_k_permutations_count(s@, s.len() as nat);
    let ops = op_words(seq!['+', '-', '*', '/'], 4);
    law_op_words_count(seq!['+', '-', '*', '/'], 4);
    reveal(vstd::arithmetic::power::pow);
    assert(seq!['+', '-', '*', '/'].len() == 4);
    assert(vstd::arithmetic::power::pow(4, 0) == 1);
    assert(vstd::arithmetic::power::pow(4, 1) == 4);
    assert(vstd::arithmetic::power::pow(4, 2) == 16);
    assert(vstd::arithmetic::power::pow(4, 3) == 64);
    assert(vstd::arithmetic::power::pow(4, 4) == 256);
    assert(ops.len() == 256);
    law_arrangements_count(k_permutations(s@, s.len() as nat), ops, k_permutations(s@, s.len() as nat).len() as int);
}

} // verus!
