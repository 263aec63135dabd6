use vstd::prelude::*;
use vstd::std_specs::cmp::PartialOrdIs;
use vstd::std_specs::cmp::PartialOrdSpec;
use vstd::string::StringExecFns;

verus! {

/// `a` if it is less than `b`, otherwise `b`.
pub open spec fn partial_min_spec<T: PartialOrd>(a: T, b: T) -> T {
    if a.is_lt(&b) {
        a
    } else {
        b
    }
}

/// `a` if it is greater than `b`, otherwise `b`.
pub open spec fn partial_max_spec<T: PartialOrd>(a: T, b: T) -> T {
    if a.is_gt(&b) {
        a
    } else {
        b
    }
}

/// The running `(min, max)` after folding the items, in order, into `start`.
pub open spec fn fold_min_max<T: PartialOrd>(items: Seq<T>, start: (T, T)) -> (T, T)
    decreases items.len(),
{
    if items.len() == 0 {
        start
    } else {
        let rest = fold_min_max(items.drop_last(), start);
        (partial_min_spec(rest.0, items.last()), partial_max_spec(rest.1, items.last()))
    }
}

/// The smallest and largest of the items: the fold starts from the first item, and the default
/// stands for both only when there are no items.
pub open spec fn min_max_spec<T: PartialOrd>(items: Seq<T>, default: T) -> (T, T) {
    if items.len() == 0 {
        (default, default)
    } else {
        fold_min_max(items, (items[0], items[0]))
    }
}

/// The smaller of the two values, by `<`: `a` if `a < b`, otherwise `b` (so `b` when they are
/// unordered, as a NaN is).
pub fn partial_min<T: PartialOrd>(a: T, b: T) -> (r: T)
    ensures
        T::obeys_partial_cmp_spec() ==> r == partial_min_spec(a, b),
{
    if a < b {
        a
    } else {
        b
    }
}

/// The larger of the two values, by `>`: `a` if `a > b`, otherwise `b`.
pub fn partial_max<T: PartialOrd>(a: T, b: T) -> (r: T)
    ensures
        T::obeys_partial_cmp_spec() ==> r == partial_max_spec(a, b),
{
    if a > b {
        a
    } else {
        b
    }
}

/// The smallest and largest of the items in the form `(min, max)`; for no items, the default
/// for both.
pub fn min_max<T: PartialOrd + Copy>(items: &[T], default: T) -> (r: (T, T))
    ensures
        T::obeys_partial_cmp_spec() ==> r == min_max_spec(items@, default),
{
    if items.len() == 0 {
        return (default, default);
    }
    let first = items[0];
    let mut acc: (T, T) = (first, first);
    let mut i: usize = 0;
    let ghost mut n: int = 0;
    while i < items.len()
        invariant
            n == i,
            i <= items@.len(),
            items@.len() > 0,
            first == items@[0],
            T::obeys_partial_cmp_spec() ==> acc == fold_min_max(items@.take(n), (first, first)),
        decreases items@.len() - i,
    {
        let x = items[i];
        acc = (partial_min(acc.0, x), partial_max(acc.1, x));
        proof {
            assert(items@.take(n + 1).drop_last() =~= items@.take(n));
            n = n + 1;
        }
        i = i + 1;
    }
    proof {
        assert(items@.take(n) =~= items@);
    }
    acc
}

/// The text of each item.
pub open spec fn texts(items: Seq<String>) -> Seq<Seq<char>> {
    items.map_values(|s: String| s@)
}

/// The texts joined with `", "` between them.
pub open spec fn join(items: Seq<Seq<char>>) -> Seq<char>
    decreases items.len(),
{
    if items.len() == 0 {
        Seq::empty()
    } else if items.len() == 1 {
        items[0]
    } else {
        join(items.drop_last()) + seq![',', ' '] + items.last()
    }
}

/// The list in brackets, items separated by `", "`; with more than `max_length` items, only the
/// first and the last `max_length / 2`, with `" ... "` between them.
pub open spec fn truncated_list(max_length: nat, items: Seq<Seq<char>>) -> Seq<char> {
    let inner = if items.len() <= max_length {
        join(items)
    } else {
        let half = max_length / 2;
        join(items.take(half as int)) + seq![' ', '.', '.', '.', ' '] + join(items.skip(items.len() - half))
    };
    seq!['['] + inner + seq![']']
}

/// Append the items from `from` up to `to`, separated by `", "`.
fn append_joined(out: &mut String, items: &[String], from: usize, to: usize)
    requires
        from <= to <= items@.len(),
    ensures
        final(out)@ == old(out)@ + join(texts(items@).subrange(from as int, to as int)),
{
    let ghost start = out@;
    let mut i: usize = from;
    proof {
        assert(texts(items@).subrange(from as int, from as int) =~= Seq::<Seq<char>>::empty());
    }
    while i < to
        invariant
            from <= i <= to <= items@.len(),
            out@ == start + join(texts(items@).subrange(from as int, i as int)),
        decreases to - i,
    {
        let ghost sub = texts(items@).subrange(from as int, i as int + 1);
        proof {
            assert(sub.drop_last() =~= texts(items@).subrange(from as int, i as int));
            assert(sub.last() == items@[i as int]@);
        }
        if i > from {
            proof {
                reveal_strlit(", ");
            }
            out.append(", ");
        }
        out.append(items[i].as_str());
        proof {
            if i == from {
                assert(sub.len() == 1);
                assert(join(texts(items@).subrange(from as int, i as int)) == Seq::<char>::empty());
                assert(out@ =~= start + join(sub));
            } else {
                assert(out@ =~= start + join(sub));
            }
        }
        i = i + 1;
    }
}

/// The list, truncated like `"[0, 1, 2 ... 7, 8, 9]"` when it holds more than `max_length`
/// items; each item is given as its text.
pub fn format_truncate_list(max_length: usize, items: &[String]) -> (r: String)
    ensures
        r@ == truncated_list(max_length as nat, texts(items@)),
{
    proof {
        reveal_strlit("[");
        reveal_strlit(" ... ");
        reveal_strlit("]");
    }
    let mut out = String::from_str("[");
    let len = items.len();
    if len <= max_length {
        append_joined(&mut out, items, 0, len);
        proof {
            assert(texts(items@).subrange(0, len as int) =~= texts(items@));
        }
    } else {
        let half = max_length / 2;
        append_joined(&mut out, items, 0, half);
        out.append(" ... ");
        append_joined(&mut out, items, len - half, len);
        proof {
            assert(texts(items@).subrange(0, half as int) =~= texts(items@).take(half as int));
            assert(texts(items@).subrange((len - half) as int, len as int) =~= texts(items@).skip(len - half));
        }
    }
    out.append("]");
    out
}

} // verus!
