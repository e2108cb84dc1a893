//! Sorting for slices whose length is a power of two.
//!
//! [`sort`] arranges a slice by its element order, ascending or
//! descending; [`sort_by`] takes a caller-supplied comparator instead.
//! Both insist, as a precondition turned error, that the input length be
//! a power of two, and both return a new vector holding exactly the
//! input's elements. For element types whose `cmp` follows a genuine
//! total order, the result of [`sort`] is proved sorted in the requested
//! direction; the result of [`sort_by`] is proved sorted by every total
//! order that its comparator's answers respect.
use vstd::prelude::*;
use vstd::multiset::Multiset;
use vstd::string::StringExecFns;
use vstd::relations::{sorted_by, strongly_connected, total_ordering};
use vstd::seq_lib::lemma_multiset_commutative;
use vstd::std_specs::cmp::OrdSpec;
use core::cmp::Ordering;

verus! {

#[derive(Debug, Clone, Copy, PartialEq, Eq, Hash)]
pub enum SortOrder {
    Ascending,
    Descending,
}

pub open spec fn spec_is_pow2(n: nat) -> bool
    decreases n,
{
    if n == 0 {
        false
    } else if n == 1 {
        true
    } else if n % 2 == 1 {
        false
    } else {
        spec_is_pow2(n / 2)
    }
}

/// The order the sort arranges values in: by `cmp_spec`, reversed when
/// `reverse` holds. Ties may come out either way round.
pub open spec fn sort_leq<T: Ord>(reverse: bool) -> spec_fn(T, T) -> bool {
    if reverse {
        |a: T, b: T| a.cmp_spec(&b) != Ordering::Less
    } else {
        |a: T, b: T| a.cmp_spec(&b) != Ordering::Greater
    }
}

pub open spec fn spec_reverse_of(order: SortOrder) -> bool {
    order is Descending
}

/// The comparator can only ever answer as the order `leq` dictates:
/// whenever a call on `x` and `y` may return `ret`, that answer is
/// `Greater` exactly when `leq` puts `x` after `y`.
pub open spec fn comparator_respects<T, F: Fn(&T, &T) -> Ordering>(
    f: F,
    leq: spec_fn(T, T) -> bool,
) -> bool {
    forall|x: &T, y: &T, ret: Ordering|
        #[trigger] call_ensures(f, (x, y), ret) ==> (ret != Ordering::Greater <==> leq(*x, *y))
}

/// The decimal digits of `n`, most significant first.
pub open spec fn spec_decimal(n: nat) -> Seq<char>
    decreases n,
{
    if n < 10 {
        seq![spec_digit_char(n)]
    } else {
        spec_decimal(n / 10).push(spec_digit_char(n % 10))
    }
}

pub open spec fn spec_digit_char(d: nat) -> char {
    ((48 + d) as u32) as char
}

/// The message reported for an input whose length is no power of two.
pub open spec fn spec_invalid_len_msg(n: nat) -> Seq<char> {
    "Length of x("@ + spec_decimal(n) + ") is invalid"@
}

/// The one-character string for a decimal digit.
fn digit_str(d: u64) -> (r: &'static str)
    requires
        d < 10,
    ensures
        r@ == seq![spec_digit_char(d as nat)],
{
    let s: &'static str = match d {
        0 => "0",
        1 => "1",
        2 => "2",
        3 => "3",
        4 => "4",
        5 => "5",
        6 => "6",
        7 => "7",
        8 => "8",
        _ => "9",
    };
    proof {
        reveal_strlit("0");
        reveal_strlit("1");
        reveal_strlit("2");
        reveal_strlit("3");
        reveal_strlit("4");
        reveal_strlit("5");
        reveal_strlit("6");
        reveal_strlit("7");
        reveal_strlit("8");
        reveal_strlit("9");
        assert(s@ =~= seq![spec_digit_char(d as nat)]);
    }
    s
}

/// Append the decimal digits of `n`, most significant first.
fn push_decimal(out: &mut String, n: u64)
    ensures
        final(out)@ == old(out)@ + spec_decimal(n as nat),
    decreases n,
{
    if n < 10 {
        out.append(digit_str(n));
        proof {
            assert(old(out)@ + seq![spec_digit_char(n as nat)] =~= old(out)@ + spec_decimal(
                n as nat,
            ));
        }
    } else {
        proof {
            vstd::arithmetic::div_mod::lemma_div_decreases(n as int, 10);
        }
        push_decimal(out, n / 10);
        out.append(digit_str(n % 10));
        proof {
            assert(old(out)@ + spec_decimal((n / 10) as nat) + seq![spec_digit_char(
                (n % 10) as nat,
            )] =~= old(out)@ + spec_decimal(n as nat));
        }
    }
}

/// Render the message for an input whose length is no power of two.
fn invalid_len_message(n: usize) -> (r: String)
    ensures
        r@ == spec_invalid_len_msg(n as nat),
{
    let mut msg = String::new();
    msg.append("Length of x(");
    push_decimal(&mut msg, n as u64);
    msg.append(") is invalid");
    proof {
        assert(msg@ =~= spec_invalid_len_msg(n as nat));
    }
    msg
}

fn is_power_of_two(n: usize) -> (r: bool)
    ensures
        r == spec_is_pow2(n as nat),
{
    if n == 0 {
        return false;
    }
    let mut m = n;
    while m % 2 == 0
        invariant
            1 <= m <= n,
            spec_is_pow2(n as nat) == spec_is_pow2(m as nat),
        decreases m,
    {
        m = m / 2;
    }
    m == 1
}

/// Compare in the requested direction: does `a` belong no later than `b`?
fn dir_le<T: Ord>(a: &T, b: &T, reverse: bool) -> (r: bool)
    ensures
        T::obeys_cmp_spec() ==> r == sort_leq::<T>(reverse)(*a, *b),
{
    let ord = a.cmp(b);
    if reverse {
        !(matches!(ord, Ordering::Less))
    } else {
        !(matches!(ord, Ordering::Greater))
    }
}

/// Move the elements above `half` out of `v`, last first.
fn split_back<T>(v: &mut Vec<T>, half: usize) -> (r: Vec<T>)
    requires
        half <= old(v)@.len(),
    ensures
        final(v)@ == old(v)@.subrange(0, half as int),
        r@ == old(v)@.subrange(half as int, old(v)@.len() as int).reverse(),
{
    let ghost full = v@;
    let mut right: Vec<T> = Vec::new();
    while v.len() > half
        invariant
            half <= v@.len() <= full.len(),
            v@ == full.subrange(0, v@.len() as int),
            right@ == full.subrange(v@.len() as int, full.len() as int).reverse(),
        decreases v@.len(),
    {
        match v.pop() {
            Some(t) => {
                right.push(t);
                proof {
                    assert(v@ =~= full.subrange(0, v@.len() as int));
                    assert(right@ =~= full.subrange(v@.len() as int, full.len() as int).reverse());
                }
            },
            None => {},
        }
    }
    right
}

/// All of `xs` belongs no later than all of `ys`.
spec fn all_before<T>(xs: Seq<T>, ys: Seq<T>, leq: spec_fn(T, T) -> bool) -> bool {
    forall|i: int, j: int|
        0 <= i < xs.len() && 0 <= j < ys.len() ==> #[trigger] leq(xs[i], ys[j])
}

/// Sorted with the latest element first.
spec fn desc_sorted<T>(s: Seq<T>, leq: spec_fn(T, T) -> bool) -> bool {
    forall|i: int, j: int| 0 <= i <= j < s.len() ==> #[trigger] leq(s[j], s[i])
}

proof fn lemma_reverse_of_desc_sorted<T>(s: Seq<T>, leq: spec_fn(T, T) -> bool)
    requires
        desc_sorted(s, leq),
    ensures
        sorted_by(s.reverse(), leq),
{
    let r = s.reverse();
    assert forall|i: int, j: int| 0 <= i < j < r.len() implies #[trigger] leq(r[i], r[j]) by {
        assert(leq(s[s.len() - 1 - i], s[s.len() - 1 - j]));
    }
}


/// Popping the last element of one sequence and pushing it onto another
/// moves exactly one occurrence between their multisets.
proof fn lemma_pop_push_multiset<T>(
    before_src: Seq<T>,
    after_src: Seq<T>,
    before_out: Seq<T>,
    after_out: Seq<T>,
)
    requires
        before_src.len() > 0,
        after_src == before_src.subrange(0, before_src.len() - 1),
        after_out == before_out.push(before_src.last()),
    ensures
        after_src.to_multiset().add(after_out.to_multiset()) == before_src.to_multiset().add(
            before_out.to_multiset(),
        ),
{
    let x = before_src.last();
    assert(before_src =~= after_src.push(x));
    after_src.to_multiset_ensures();
    before_out.to_multiset_ensures();
    assert(before_src.to_multiset() == after_src.push(x).to_multiset());
    assert(before_src.to_multiset() == after_src.to_multiset().insert(x));
    assert(after_out.to_multiset() == before_out.push(x).to_multiset());
    assert(after_out.to_multiset() == before_out.to_multiset().insert(x));
    assert forall|e: T|
        after_src.to_multiset().add(after_out.to_multiset()).count(e) == before_src.to_multiset().add(
            before_out.to_multiset(),
        ).count(e) by {
        vstd::multiset::axiom_multiset_add(after_src.to_multiset(), after_out.to_multiset(), e);
        vstd::multiset::axiom_multiset_add(before_src.to_multiset(), before_out.to_multiset(), e);
        if e == x {
            vstd::multiset::lemma_insert_increases_count_by_1(after_src.to_multiset(), x);
            vstd::multiset::lemma_insert_increases_count_by_1(before_out.to_multiset(), x);
        } else {
            vstd::multiset::lemma_insert_other_elements_unchanged(after_src.to_multiset(), x, e);
            vstd::multiset::lemma_insert_other_elements_unchanged(before_out.to_multiset(), x, e);
        }
    }
    assert(after_src.to_multiset().add(after_out.to_multiset()) =~= before_src.to_multiset().add(
        before_out.to_multiset(),
    ));
}

/// Replacing the two right summands of a three-part multiset sum by an
/// equal sum leaves the whole sum unchanged.
proof fn lemma_add3_right<T>(
    a: Multiset<T>,
    b1: Multiset<T>,
    o1: Multiset<T>,
    b2: Multiset<T>,
    o2: Multiset<T>,
)
    requires
        b2.add(o2) == b1.add(o1),
    ensures
        a.add(b2).add(o2) == a.add(b1).add(o1),
{
    assert forall|e: T| a.add(b2).add(o2).count(e) == a.add(b1).add(o1).count(e) by {
        vstd::multiset::axiom_multiset_add(a.add(b2), o2, e);
        vstd::multiset::axiom_multiset_add(a, b2, e);
        vstd::multiset::axiom_multiset_add(b2, o2, e);
        vstd::multiset::axiom_multiset_add(b1, o1, e);
        vstd::multiset::axiom_multiset_add(a.add(b1), o1, e);
        vstd::multiset::axiom_multiset_add(a, b1, e);
    }
    assert(a.add(b2).add(o2) =~= a.add(b1).add(o1));
}

/// Replacing the two outer summands of a three-part multiset sum by an
/// equal sum leaves the whole sum unchanged.
proof fn lemma_add3_outer<T>(
    mid: Multiset<T>,
    a1: Multiset<T>,
    o1: Multiset<T>,
    a2: Multiset<T>,
    o2: Multiset<T>,
)
    requires
        a2.add(o2) == a1.add(o1),
    ensures
        a2.add(mid).add(o2) == a1.add(mid).add(o1),
{
    assert forall|e: T| a2.add(mid).add(o2).count(e) == a1.add(mid).add(o1).count(e) by {
        vstd::multiset::axiom_multiset_add(a2.add(mid), o2, e);
        vstd::multiset::axiom_multiset_add(a2, mid, e);
        vstd::multiset::axiom_multiset_add(a2, o2, e);
        vstd::multiset::axiom_multiset_add(a1.add(mid), o1, e);
        vstd::multiset::axiom_multiset_add(a1, mid, e);
        vstd::multiset::axiom_multiset_add(a1, o1, e);
    }
    assert(a2.add(mid).add(o2) =~= a1.add(mid).add(o1));
}

/// Adding the multiset of an empty sequence changes nothing.
proof fn lemma_add_empty<T>(x: Multiset<T>, e_seq: Seq<T>)
    requires
        e_seq.len() == 0,
    ensures
        x.add(e_seq.to_multiset()) == x,
{
    e_seq.to_multiset_ensures();
    assert forall|e: T| x.add(e_seq.to_multiset()).count(e) == x.count(e) by {
        vstd::multiset::axiom_multiset_add(x, e_seq.to_multiset(), e);
        vstd::multiset::axiom_count_le_len(e_seq.to_multiset(), e);
    }
    assert(x.add(e_seq.to_multiset()) =~= x);
}

/// Once both sources are drained, the output's multiset is the whole sum.
proof fn lemma_drained_sum<T>(ae: Seq<T>, be: Seq<T>, full: Seq<T>, rhs: Multiset<T>)
    requires
        ae.len() == 0,
        be.len() == 0,
        ae.to_multiset().add(be.to_multiset()).add(full.to_multiset()) == rhs,
    ensures
        full.to_multiset() == rhs,
{
    ae.to_multiset_ensures();
    be.to_multiset_ensures();
    assert forall|e: T| full.to_multiset().count(e) == rhs.count(e) by {
        vstd::multiset::axiom_multiset_add(
            ae.to_multiset().add(be.to_multiset()),
            full.to_multiset(),
            e,
        );
        vstd::multiset::axiom_multiset_add(ae.to_multiset(), be.to_multiset(), e);
        vstd::multiset::axiom_count_le_len(ae.to_multiset(), e);
        vstd::multiset::axiom_count_le_len(be.to_multiset(), e);
    }
    assert(full.to_multiset() =~= rhs);
}

/// Merge two stacks of sorted values into one sorted vector. Without a
/// lawful order on the elements, the result is still exactly their
/// multiset.
fn merge<T: Copy + Ord>(a: Vec<T>, b: Vec<T>, reverse: bool) -> (r: Vec<T>)
    requires
        T::obeys_cmp_spec() && total_ordering(sort_leq::<T>(reverse)) ==> sorted_by(
            a@,
            sort_leq::<T>(reverse),
        ) && sorted_by(b@, sort_leq::<T>(reverse)),
    ensures
        r@.len() == a@.len() + b@.len(),
        r@.to_multiset() == a@.to_multiset().add(b@.to_multiset()),
        T::obeys_cmp_spec() && total_ordering(sort_leq::<T>(reverse)) ==> sorted_by(
            r@,
            sort_leq::<T>(reverse),
        ),
{
    let ghost leq = sort_leq::<T>(reverse);
    let ghost good = T::obeys_cmp_spec() && total_ordering(leq);
    let ghost a0 = a@;
    let ghost b0 = b@;
    let mut a = a;
    let mut b = b;
    let mut out_rev: Vec<T> = Vec::new();
    proof {
        lemma_add_empty(a0.to_multiset().add(b0.to_multiset()), out_rev@);
    }
    while a.len() > 0 && b.len() > 0
        invariant
            a@.len() + b@.len() + out_rev@.len() == a0.len() + b0.len(),
            a@.to_multiset().add(b@.to_multiset()).add(out_rev@.to_multiset())
                == a0.to_multiset().add(b0.to_multiset()),
            leq == sort_leq::<T>(reverse),
            good == (T::obeys_cmp_spec() && total_ordering(leq)),
            good ==> sorted_by(a@, leq) && sorted_by(b@, leq),
            good ==> desc_sorted(out_rev@, leq),
            good ==> all_before(a@, out_rev@, leq) && all_before(b@, out_rev@, leq),
        decreases a@.len() + b@.len(),
    {
        let take_b = dir_le(&a[a.len() - 1], &b[b.len() - 1], reverse);
        let ghost av = a@;
        let ghost bv = b@;
        let ghost outv = out_rev@;
        proof {
            if good {
                assert(strongly_connected(leq));
                assert(leq(av.last(), bv.last()) || leq(bv.last(), av.last()));
            }
        }
        if take_b {
            match b.pop() {
                Some(t) => {
                    out_rev.push(t);
                    proof {
                        lemma_pop_push_multiset(bv, b@, outv, out_rev@);
                        lemma_add3_right(
                            a@.to_multiset(),
                            bv.to_multiset(),
                            outv.to_multiset(),
                            b@.to_multiset(),
                            out_rev@.to_multiset(),
                        );
                        assert(out_rev@.drop_last() =~= outv);
                        assert(b@ =~= bv.drop_last());
                        lemma_merge_step(av, bv, out_rev@, bv.last(), leq, good, true);
                    }
                },
                None => {},
            }
        } else {
            match a.pop() {
                Some(t) => {
                    out_rev.push(t);
                    proof {
                        lemma_pop_push_multiset(av, a@, outv, out_rev@);
                        lemma_add3_outer(
                            b@.to_multiset(),
                            av.to_multiset(),
                            outv.to_multiset(),
                            a@.to_multiset(),
                            out_rev@.to_multiset(),
                        );
                        assert(out_rev@.drop_last() =~= outv);
                        assert(a@ =~= av.drop_last());
                        lemma_merge_step(av, bv, out_rev@, av.last(), leq, good, false);
                    }
                },
                None => {},
            }
        }
    }
    while a.len() > 0 || b.len() > 0
        invariant
            a@.len() == 0 || b@.len() == 0,
            a@.len() + b@.len() + out_rev@.len() == a0.len() + b0.len(),
            a@.to_multiset().add(b@.to_multiset()).add(out_rev@.to_multiset())
                == a0.to_multiset().add(b0.to_multiset()),
            leq == sort_leq::<T>(reverse),
            good == (T::obeys_cmp_spec() && total_ordering(leq)),
            good ==> sorted_by(a@, leq) && sorted_by(b@, leq),
            good ==> desc_sorted(out_rev@, leq),
            good ==> all_before(a@, out_rev@, leq) && all_before(b@, out_rev@, leq),
        decreases a@.len() + b@.len(),
    {
        let ghost av = a@;
        let ghost bv = b@;
        let ghost outv = out_rev@;
        if a.len() > 0 {
            match a.pop() {
                Some(t) => {
                    out_rev.push(t);
                    proof {
                        lemma_pop_push_multiset(av, a@, outv, out_rev@);
                        lemma_add3_outer(
                            b@.to_multiset(),
                            av.to_multiset(),
                            outv.to_multiset(),
                            a@.to_multiset(),
                            out_rev@.to_multiset(),
                        );
                        assert(out_rev@.drop_last() =~= outv);
                        assert(a@ =~= av.drop_last());
                        lemma_drain_step(av, out_rev@, leq, good);
                    }
                },
                None => {},
            }
        } else {
            match b.pop() {
                Some(t) => {
                    out_rev.push(t);
                    proof {
                        lemma_pop_push_multiset(bv, b@, outv, out_rev@);
                        lemma_add3_right(
                            a@.to_multiset(),
                            bv.to_multiset(),
                            outv.to_multiset(),
                            b@.to_multiset(),
                            out_rev@.to_multiset(),
                        );
                        assert(out_rev@.drop_last() =~= outv);
                        assert(b@ =~= bv.drop_last());
                        lemma_drain_step(bv, out_rev@, leq, good);
                    }
                },
                None => {},
            }
        }
    }
    let ghost full = out_rev@;
    let mut out: Vec<T> = Vec::new();
    while out_rev.len() > 0
        invariant
            out_rev@ + out@.reverse() == full,
        decreases out_rev@.len(),
    {
        match out_rev.pop() {
            Some(t) => {
                out.push(t);
                proof {
                    assert(out_rev@ + out@.reverse() =~= full);
                }
            },
            None => {},
        }
    }
    proof {
        assert(out@.reverse() =~= full);
        assert(out@ =~= full.reverse());
        full.lemma_reverse_to_multiset();
        lemma_drained_sum(a@, b@, full, a0.to_multiset().add(b0.to_multiset()));
        if good {
            lemma_reverse_of_desc_sorted(full, leq);
        }
    }
    out
}

/// One step of the merge: moving the latest remaining element onto the
/// output keeps the output descending and still after everything left.
proof fn lemma_merge_step<T>(
    av: Seq<T>,
    bv: Seq<T>,
    out_new: Seq<T>,
    moved: T,
    leq: spec_fn(T, T) -> bool,
    good: bool,
    from_b: bool,
)
    requires
        av.len() > 0,
        bv.len() > 0,
        out_new.len() > 0,
        out_new.last() == moved,
        moved == (if from_b {
            bv.last()
        } else {
            av.last()
        }),
        good ==> total_ordering(leq),
        good ==> sorted_by(av, leq) && sorted_by(bv, leq),
        good ==> desc_sorted(out_new.drop_last(), leq),
        good ==> all_before(av, out_new.drop_last(), leq) && all_before(
            bv,
            out_new.drop_last(),
            leq,
        ),
        good && from_b ==> leq(av.last(), bv.last()),
        good && !from_b ==> leq(bv.last(), av.last()),
    ensures
        good ==> desc_sorted(out_new, leq),
        good ==> sorted_by(av.drop_last(), leq) && sorted_by(bv.drop_last(), leq),
        good ==> (if from_b {
            all_before(av, out_new, leq) && all_before(bv.drop_last(), out_new, leq)
        } else {
            all_before(av.drop_last(), out_new, leq) && all_before(bv, out_new, leq)
        }),
{
    if good {
        let out_old = out_new.drop_last();
        assert forall|i: int, j: int| 0 <= i <= j < out_new.len() implies #[trigger] leq(
            out_new[j],
            out_new[i],
        ) by {
            if j < out_new.len() - 1 {
                assert(leq(out_old[j], out_old[i]));
            } else if i < j {
                // the moved element is below everything already out
                if from_b {
                    assert(leq(bv.last(), out_old[i]));
                } else {
                    assert(leq(av.last(), out_old[i]));
                }
            } else {
                // reflexivity of a total ordering
                assert(leq(out_new[i], out_new[i]));
            }
        }
        assert forall|i: int, j: int|
            0 <= i < av.len() && 0 <= j < out_new.len() implies #[trigger] leq(
            av[i],
            out_new[j],
        ) by {
            if j < out_new.len() - 1 {
                assert(leq(av[i], out_old[j]));
            } else {
                if i < av.len() - 1 {
                    assert(leq(av[i], av.last()));
                } else {
                    assert(leq(av[i], av[i]));
                }
                if from_b {
                    assert(leq(av.last(), bv.last()));
                }
            }
        }
        assert forall|i: int, j: int|
            0 <= i < bv.len() && 0 <= j < out_new.len() implies #[trigger] leq(
            bv[i],
            out_new[j],
        ) by {
            if j < out_new.len() - 1 {
                assert(leq(bv[i], out_old[j]));
            } else {
                if i < bv.len() - 1 {
                    assert(leq(bv[i], bv.last()));
                } else {
                    assert(leq(bv[i], bv[i]));
                }
                if !from_b {
                    assert(leq(bv.last(), av.last()));
                }
            }
        }
        assert(all_before(av.drop_last(), out_new, leq)) by {
            assert forall|i: int, j: int|
                0 <= i < av.drop_last().len() && 0 <= j < out_new.len() implies #[trigger] leq(
                av.drop_last()[i],
                out_new[j],
            ) by {
                assert(leq(av[i], out_new[j]));
            }
        }
        assert(all_before(bv.drop_last(), out_new, leq)) by {
            assert forall|i: int, j: int|
                0 <= i < bv.drop_last().len() && 0 <= j < out_new.len() implies #[trigger] leq(
                bv.drop_last()[i],
                out_new[j],
            ) by {
                assert(leq(bv[i], out_new[j]));
            }
        }
    }
}

/// One step of draining the leftover stack onto the output.
proof fn lemma_drain_step<T>(
    av: Seq<T>,
    out_new: Seq<T>,
    leq: spec_fn(T, T) -> bool,
    good: bool,
)
    requires
        av.len() > 0,
        out_new.len() > 0,
        out_new.last() == av.last(),
        good ==> total_ordering(leq),
        good ==> sorted_by(av, leq),
        good ==> desc_sorted(out_new.drop_last(), leq),
        good ==> all_before(av, out_new.drop_last(), leq),
    ensures
        good ==> desc_sorted(out_new, leq),
        good ==> sorted_by(av.drop_last(), leq),
        good ==> all_before(av.drop_last(), out_new, leq),
{
    if good {
        let out_old = out_new.drop_last();
        assert forall|i: int, j: int| 0 <= i <= j < out_new.len() implies #[trigger] leq(
            out_new[j],
            out_new[i],
        ) by {
            if j < out_new.len() - 1 {
                assert(leq(out_old[j], out_old[i]));
            } else if i < j {
                assert(leq(av.last(), out_old[i]));
            } else {
                assert(leq(out_new[i], out_new[i]));
            }
        }
        assert forall|i: int, j: int|
            0 <= i < av.drop_last().len() && 0 <= j < out_new.len() implies #[trigger] leq(
            av.drop_last()[i],
            out_new[j],
        ) by {
            if j < out_new.len() - 1 {
                assert(leq(av[i], out_old[j]));
            } else {
                assert(leq(av[i], av.last()));
            }
        }
    }
}

/// Sort a whole vector by repeated halving and merging.
fn msort<T: Copy + Ord>(v: Vec<T>, reverse: bool) -> (r: Vec<T>)
    ensures
        r@.len() == v@.len(),
        r@.to_multiset() == v@.to_multiset(),
        T::obeys_cmp_spec() && total_ordering(sort_leq::<T>(reverse)) ==> sorted_by(
            r@,
            sort_leq::<T>(reverse),
        ),
    decreases v@.len(),
{
    if v.len() <= 1 {
        return v;
    }
    let ghost v0 = v@;
    let half = v.len() / 2;
    let mut left = v;
    let right = split_back(&mut left, half);
    proof {
        assert(left@ + right@.reverse() =~= v0);
        lemma_multiset_commutative(left@, right@.reverse());
        right@.lemma_reverse_to_multiset();
    }
    let ls = msort(left, reverse);
    let rs = msort(right, reverse);
    merge(ls, rs, reverse)
}

/// Sort a slice in the requested direction.
///
/// The input's length must be a power of two; any other length is
/// rejected with a message naming it. The result holds exactly the
/// input's elements, and — whenever the element order obeys its
/// specification and is a genuine total order — it is sorted in the
/// requested direction.
pub fn sort<T: Copy + Ord>(x: &[T], order: &SortOrder) -> (r: Result<Vec<T>, String>)
    ensures
        r is Ok <==> spec_is_pow2(x@.len()),
        (match r {
            Ok(v) => {
                &&& v@.len() == x@.len()
                &&& v@.to_multiset() == x@.to_multiset()
                &&& (T::obeys_cmp_spec() && total_ordering(
                    sort_leq::<T>(spec_reverse_of(*order)),
                ) ==> sorted_by(v@, sort_leq::<T>(spec_reverse_of(*order))))
            },
            Err(e) => e@ == spec_invalid_len_msg(x@.len()),
        }),
{
    if is_power_of_two(x.len()) {
        let vec = vstd::slice::slice_to_vec(x);
        match *order {
            SortOrder::Ascending => Ok(msort(vec, false)),
            SortOrder::Descending => Ok(msort(vec, true)),
        }
    } else {
        Err(invalid_len_message(x.len()))
    }
}

/// Merge two stacks by a caller-supplied comparator. Whatever the
/// comparator answers, the result is exactly the elements of both; and
/// for every total order the comparator's answers respect, sorted
/// inputs merge into a sorted output.
fn merge_by<T: Copy, F: Fn(&T, &T) -> Ordering>(a: Vec<T>, b: Vec<T>, comparator: &F) -> (r: Vec<
    T,
>)
    requires
        forall|x: &T, y: &T| comparator.requires((x, y)),
        forall|leq: spec_fn(T, T) -> bool|
            #![trigger comparator_respects(*comparator, leq)]
            comparator_respects(*comparator, leq) && total_ordering(leq) ==> sorted_by(a@, leq)
                && sorted_by(b@, leq),
    ensures
        r@.len() == a@.len() + b@.len(),
        r@.to_multiset() == a@.to_multiset().add(b@.to_multiset()),
        forall|leq: spec_fn(T, T) -> bool|
            #![trigger comparator_respects(*comparator, leq)]
            comparator_respects(*comparator, leq) && total_ordering(leq) ==> sorted_by(r@, leq),
{
    let ghost a0 = a@;
    let ghost b0 = b@;
    let mut a = a;
    let mut b = b;
    let mut out_rev: Vec<T> = Vec::new();
    proof {
        lemma_add_empty(a0.to_multiset().add(b0.to_multiset()), out_rev@);
    }
    while a.len() > 0 && b.len() > 0
        invariant
            forall|x: &T, y: &T| comparator.requires((x, y)),
            a@.len() + b@.len() + out_rev@.len() == a0.len() + b0.len(),
            a@.to_multiset().add(b@.to_multiset()).add(out_rev@.to_multiset())
                == a0.to_multiset().add(b0.to_multiset()),
            forall|leq: spec_fn(T, T) -> bool|
                #![trigger comparator_respects(*comparator, leq)]
                comparator_respects(*comparator, leq) && total_ordering(leq) ==> sorted_by(
                    a@,
                    leq,
                ) && sorted_by(b@, leq) && desc_sorted(out_rev@, leq) && all_before(
                    a@,
                    out_rev@,
                    leq,
                ) && all_before(b@, out_rev@, leq),
        decreases a@.len() + b@.len(),
    {
        let ghost av = a@;
        let ghost bv = b@;
        let ghost outv = out_rev@;
        let last_a = a[a.len() - 1];
        let last_b = b[b.len() - 1];
        let ord = comparator(&last_a, &last_b);
        let take_b = !(matches!(ord, Ordering::Greater));
        if take_b {
            match b.pop() {
                Some(t) => {
                    out_rev.push(t);
                    proof {
                        lemma_pop_push_multiset(bv, b@, outv, out_rev@);
                        lemma_add3_right(
                            a@.to_multiset(),
                            bv.to_multiset(),
                            outv.to_multiset(),
                            b@.to_multiset(),
                            out_rev@.to_multiset(),
                        );
                        assert(out_rev@.drop_last() =~= outv);
                        assert(b@ =~= bv.drop_last());
                        assert forall|leq: spec_fn(T, T) -> bool|
                            #[trigger] comparator_respects(*comparator, leq) && total_ordering(
                                leq,
                            ) implies sorted_by(a@, leq) && sorted_by(b@, leq) && desc_sorted(
                            out_rev@,
                            leq,
                        ) && all_before(a@, out_rev@, leq) && all_before(b@, out_rev@, leq) by {
                            assert(leq(last_a, last_b));
                            lemma_merge_step(av, bv, out_rev@, bv.last(), leq, true, true);
                        }
                    }
                },
                None => {},
            }
        } else {
            match a.pop() {
                Some(t) => {
                    out_rev.push(t);
                    proof {
                        lemma_pop_push_multiset(av, a@, outv, out_rev@);
                        lemma_add3_outer(
                            b@.to_multiset(),
                            av.to_multiset(),
                            outv.to_multiset(),
                            a@.to_multiset(),
                            out_rev@.to_multiset(),
                        );
                        assert(out_rev@.drop_last() =~= outv);
                        assert(a@ =~= av.drop_last());
                        assert forall|leq: spec_fn(T, T) -> bool|
                            #[trigger] comparator_respects(*comparator, leq) && total_ordering(
                                leq,
                            ) implies sorted_by(a@, leq) && sorted_by(b@, leq) && desc_sorted(
                            out_rev@,
                            leq,
                        ) && all_before(a@, out_rev@, leq) && all_before(b@, out_rev@, leq) by {
                            assert(!leq(last_a, last_b));
                            assert(strongly_connected(leq));
                            assert(leq(last_b, last_a));
                            lemma_merge_step(av, bv, out_rev@, av.last(), leq, true, false);
                        }
                    }
                },
                None => {},
            }
        }
    }
    while a.len() > 0 || b.len() > 0
        invariant
            a@.len() == 0 || b@.len() == 0,
            a@.len() + b@.len() + out_rev@.len() == a0.len() + b0.len(),
            a@.to_multiset().add(b@.to_multiset()).add(out_rev@.to_multiset())
                == a0.to_multiset().add(b0.to_multiset()),
            forall|leq: spec_fn(T, T) -> bool|
                #![trigger comparator_respects(*comparator, leq)]
                comparator_respects(*comparator, leq) && total_ordering(leq) ==> sorted_by(
                    a@,
                    leq,
                ) && sorted_by(b@, leq) && desc_sorted(out_rev@, leq) && all_before(
                    a@,
                    out_rev@,
                    leq,
                ) && all_before(b@, out_rev@, leq),
        decreases a@.len() + b@.len(),
    {
        let ghost av = a@;
        let ghost bv = b@;
        let ghost outv = out_rev@;
        if a.len() > 0 {
            match a.pop() {
                Some(t) => {
                    out_rev.push(t);
                    proof {
                        lemma_pop_push_multiset(av, a@, outv, out_rev@);
                        lemma_add3_outer(
                            b@.to_multiset(),
                            av.to_multiset(),
                            outv.to_multiset(),
                            a@.to_multiset(),
                            out_rev@.to_multiset(),
                        );
                        assert(out_rev@.drop_last() =~= outv);
                        assert(a@ =~= av.drop_last());
                        assert forall|leq: spec_fn(T, T) -> bool|
                            #[trigger] comparator_respects(*comparator, leq) && total_ordering(
                                leq,
                            ) implies sorted_by(a@, leq) && sorted_by(b@, leq) && desc_sorted(
                            out_rev@,
                            leq,
                        ) && all_before(a@, out_rev@, leq) && all_before(b@, out_rev@, leq) by {
                            lemma_drain_step(av, out_rev@, leq, true);
                        }
                    }
                },
                None => {},
            }
        } else {
            match b.pop() {
                Some(t) => {
                    out_rev.push(t);
                    proof {
                        lemma_pop_push_multiset(bv, b@, outv, out_rev@);
                        lemma_add3_right(
                            a@.to_multiset(),
                            bv.to_multiset(),
                            outv.to_multiset(),
                            b@.to_multiset(),
                            out_rev@.to_multiset(),
                        );
                        assert(out_rev@.drop_last() =~= outv);
                        assert(b@ =~= bv.drop_last());
                        assert forall|leq: spec_fn(T, T) -> bool|
                            #[trigger] comparator_respects(*comparator, leq) && total_ordering(
                                leq,
                            ) implies sorted_by(a@, leq) && sorted_by(b@, leq) && desc_sorted(
                            out_rev@,
                            leq,
                        ) && all_before(a@, out_rev@, leq) && all_before(b@, out_rev@, leq) by {
                            lemma_drain_step(bv, out_rev@, leq, true);
                        }
                    }
                },
                None => {},
            }
        }
    }
    let ghost full = out_rev@;
    let mut out: Vec<T> = Vec::new();
    while out_rev.len() > 0
        invariant
            out_rev@ + out@.reverse() == full,
        decreases out_rev@.len(),
    {
        match out_rev.pop() {
            Some(t) => {
                out.push(t);
                proof {
                    assert(out_rev@ + out@.reverse() =~= full);
                }
            },
            None => {},
        }
    }
    proof {
        assert(out@.reverse() =~= full);
        assert(out@ =~= full.reverse());
        full.lemma_reverse_to_multiset();
        lemma_drained_sum(a@, b@, full, a0.to_multiset().add(b0.to_multiset()));
        assert forall|leq: spec_fn(T, T) -> bool|
            #[trigger] comparator_respects(*comparator, leq) && total_ordering(leq) implies
            sorted_by(out@, leq) by {
            lemma_reverse_of_desc_sorted(full, leq);
        }
    }
    out
}

/// Sort a vector by a caller-supplied comparator: the elements are kept
/// exactly, and the result is sorted by every total order the
/// comparator's answers respect.
fn msort_by<T: Copy, F: Fn(&T, &T) -> Ordering>(v: Vec<T>, comparator: &F) -> (r: Vec<T>)
    requires
        forall|x: &T, y: &T| comparator.requires((x, y)),
    ensures
        r@.len() == v@.len(),
        r@.to_multiset() == v@.to_multiset(),
        forall|leq: spec_fn(T, T) -> bool|
            #![trigger comparator_respects(*comparator, leq)]
            comparator_respects(*comparator, leq) && total_ordering(leq) ==> sorted_by(r@, leq),
    decreases v@.len(),
{
    if v.len() <= 1 {
        return v;
    }
    let ghost v0 = v@;
    let half = v.len() / 2;
    let mut left = v;
    let right = split_back(&mut left, half);
    proof {
        assert(left@ + right@.reverse() =~= v0);
        lemma_multiset_commutative(left@, right@.reverse());
        right@.lemma_reverse_to_multiset();
    }
    let ls = msort_by(left, comparator);
    let rs = msort_by(right, comparator);
    merge_by(ls, rs, comparator)
}

/// Sort a slice by a caller-supplied comparator, ascending in the order
/// the comparator describes.
///
/// The input's length must be a power of two; any other length is
/// rejected with a message naming it. Whatever the comparator answers,
/// the result holds exactly the input's elements; and for every total
/// order that the comparator's possible answers respect, the result is
/// sorted by it — so a comparator that genuinely computes a total order
/// always hands back a sorted permutation.
pub fn sort_by<T: Copy, F: Fn(&T, &T) -> Ordering>(x: &[T], comparator: &F) -> (r: Result<
    Vec<T>,
    String,
>)
    requires
        forall|a: &T, b: &T| comparator.requires((a, b)),
    ensures
        r is Ok <==> spec_is_pow2(x@.len()),
        (match r {
            Ok(v) => {
                &&& v@.len() == x@.len()
                &&& v@.to_multiset() == x@.to_multiset()
                &&& forall|leq: spec_fn(T, T) -> bool|
                    #![trigger comparator_respects(*comparator, leq)]
                    comparator_respects(*comparator, leq) && total_ordering(leq) ==> sorted_by(
                        v@,
                        leq,
                    )
            },
            Err(e) => e@ == spec_invalid_len_msg(x@.len()),
        }),
{
    if is_power_of_two(x.len()) {
        let vec = vstd::slice::slice_to_vec(x);
        Ok(msort_by(vec, comparator))
    } else {
        Err(invalid_len_message(x.len()))
    }
}

} // verus!
