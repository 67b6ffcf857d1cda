//! Grouping a fallible sequence into fixed-size batches: the bit stream of
//! the encoder and the write buffers of the pipeline are bounded this way.

use vstd::prelude::*;

use crate::errors::BncsvError;

verus! {

/// The result of chunking a fallible sequence: the full batches of values
/// gathered before the first error, and that error if one was met. Values
/// gathered into the batch in which the error occurred are dropped: the
/// error is that batch's sole terminal element.
pub struct TryChunked<V> {
    pub chunks: Vec<Vec<V>>,
    pub error: Option<BncsvError>,
}

/// The number of leading `Ok` items.
pub open spec fn ok_prefix_len<V>(items: Seq<Result<V, BncsvError>>) -> int
    decreases items.len(),
{
    if items.len() == 0 {
        0int
    } else {
        match items[0] {
            Ok(_) => 1 + ok_prefix_len(items.skip(1)),
            Err(_) => 0int,
        }
    }
}

/// The values of the leading `Ok` items.
pub open spec fn ok_vals<V>(items: Seq<Result<V, BncsvError>>) -> Seq<V> {
    items.take(ok_prefix_len(items)).map_values(|x: Result<V, BncsvError>| x->Ok_0)
}

/// A sequence split into groups of `n`, the last group possibly shorter.
pub open spec fn chunk_seq<V>(s: Seq<V>, n: int) -> Seq<Seq<V>>
    decreases s.len(),
{
    if n <= 0 || s.len() == 0 {
        Seq::<Seq<V>>::empty()
    } else if s.len() <= n {
        seq![s]
    } else {
        seq![s.take(n)] + chunk_seq(s.skip(n), n)
    }
}

/// The views of a sequence of vectors.
pub open spec fn chunk_views<V>(cs: Seq<Vec<V>>) -> Seq<Seq<V>> {
    cs.map_values(|c: Vec<V>| c@)
}

/// What chunking returns. With a positive size: if every item is `Ok`, the
/// values chunked into groups and no error; otherwise the full groups of
/// values before the first error, and that error. With size zero, nothing.
pub open spec fn chunks_post<V>(
    items: Seq<Result<V, BncsvError>>,
    size: int,
    chunks: Seq<Seq<V>>,
    error: Option<BncsvError>,
) -> bool {
    let l = ok_prefix_len(items);
    let vals = ok_vals(items);
    if size <= 0 {
        chunks.len() == 0 && error is None
    } else if l == items.len() {
        error is None && chunks == chunk_seq(vals, size)
    } else {
        error == Some(items[l]->Err_0) && chunks == chunk_seq(vals.take(size * (l / size)), size)
    }
}

/// Law: chunking a sequence of length `L` into groups of `n` gives
/// `ceil(L / n)` groups; every group holds the run of `n` values at its
/// place, so all but the last have exactly `n`, and the last has
/// `L % n` (or `n` when `n` divides `L`).
pub proof fn lemma_chunking<V>(s: Seq<V>, n: int)
    requires
        n >= 1,
    ensures
        chunk_seq(s, n).len() == (s.len() + n - 1) / n,
        forall|k: int|
            0 <= k < chunk_seq(s, n).len() ==> #[trigger] chunk_seq(s, n)[k] == s.subrange(
                k * n,
                if (k + 1) * n < s.len() {
                    (k + 1) * n
                } else {
                    s.len() as int
                },
            ),
        s.len() > 0 ==> chunk_seq(s, n).last().len() == (if s.len() as int % n == 0 {
            n
        } else {
            s.len() as int % n
        }),
    decreases s.len(),
{
    let m = s.len() as int;
    let c = chunk_seq(s, n);
    if m == 0 {
        assert((n - 1) / n == 0) by {
            vstd::arithmetic::div_mod::lemma_fundamental_div_mod_converse(n - 1, n, 0, n - 1);
        }
    } else if m <= n {
        assert((m + n - 1) / n == 1) by {
            assert(1 * n == n) by (nonlinear_arith);
            vstd::arithmetic::div_mod::lemma_fundamental_div_mod_converse(m + n - 1, n, 1, m - 1);
        }
        assert(c == seq![s]);
        assert forall|k: int|
            0 <= k < c.len() implies #[trigger] c[k] == s.subrange(
            k * n,
            if (k + 1) * n < s.len() {
                (k + 1) * n
            } else {
                s.len() as int
            },
        ) by {
            assert(k == 0);
            assert(k * n == 0 && (k + 1) * n == n);
            assert(s.subrange(0, m) =~= s);
        }
        if m == n {
            assert(m % n == 0int) by {
                assert(1 * n == n) by (nonlinear_arith);
                vstd::arithmetic::div_mod::lemma_fundamental_div_mod_converse(m, n, 1, 0);
            }
        } else {
            assert(m % n == m) by {
                assert(0 * n == 0) by (nonlinear_arith);
                vstd::arithmetic::div_mod::lemma_fundamental_div_mod_converse(m, n, 0, m);
            }
        }
    } else {
        let s2 = s.skip(n);
        lemma_chunking(s2, n);
        let m2 = s2.len() as int;
        assert(m2 == m - n);
        assert((m + n - 1) / n == 1 + (m - 1) / n && (m - 1) / n == 1 + (m - n - 1) / n) by {
            vstd::arithmetic::div_mod::lemma_fundamental_div_mod(m - n - 1, n);
            vstd::arithmetic::div_mod::lemma_mod_bound(m - n - 1, n);
            let q = (m - n - 1) / n;
            let r = (m - n - 1) % n;
            assert(m - n - 1 == n * q + r);
            assert((q + 1) * n == q * n + n && (q + 2) * n == q * n + 2 * n && q * n == n * q)
                by (nonlinear_arith);
            vstd::arithmetic::div_mod::lemma_fundamental_div_mod_converse(m - 1, n, q + 1, r);
            vstd::arithmetic::div_mod::lemma_fundamental_div_mod_converse(m + n - 1, n, q + 2, r);
        }
        assert(c == seq![s.take(n)] + chunk_seq(s2, n));
        assert forall|k: int|
            0 <= k < c.len() implies #[trigger] c[k] == s.subrange(
            k * n,
            if (k + 1) * n < s.len() {
                (k + 1) * n
            } else {
                s.len() as int
            },
        ) by {
            if k == 0 {
                assert(c[0] == s.take(n));
                assert(k * n == 0 && (k + 1) * n == n);
                assert(s.take(n) =~= s.subrange(0, n));
            } else {
                assert(c[k] == chunk_seq(s2, n)[k - 1]);
                let lo2 = (k - 1) * n;
                let hi2 = if k * n < s2.len() {
                    k * n
                } else {
                    s2.len() as int
                };
                assert((k - 1) * n + n == k * n && k * n + n == (k + 1) * n) by (nonlinear_arith);
                let cnt = (m2 + n - 1) / n;
                assert(k - 1 < cnt);
                assert(lo2 >= 0) by {
                    vstd::arithmetic::mul::lemma_mul_nonnegative(k - 1, n);
                }
                assert(lo2 < m2) by {
                    vstd::arithmetic::div_mod::lemma_fundamental_div_mod(m2 + n - 1, n);
                    vstd::arithmetic::div_mod::lemma_mod_bound(m2 + n - 1, n);
                    assert((cnt - 1) * n == n * cnt - n) by (nonlinear_arith);
                    vstd::arithmetic::mul::lemma_mul_inequality(k - 1, cnt - 1, n);
                }
                assert(chunk_seq(s2, n)[k - 1] == s2.subrange(lo2, hi2));
                assert(s2.subrange(lo2, hi2) =~= s.subrange(
                    k * n,
                    if (k + 1) * n < s.len() {
                        (k + 1) * n
                    } else {
                        s.len() as int
                    },
                ));
            }
        }
        assert(c.last() == chunk_seq(s2, n).last());
        assert(m % n == m2 % n) by {
            vstd::arithmetic::div_mod::lemma_fundamental_div_mod(m2, n);
            vstd::arithmetic::div_mod::lemma_mod_bound(m2, n);
            assert((m2 / n + 1) * n == n * (m2 / n) + n) by (nonlinear_arith);
            vstd::arithmetic::div_mod::lemma_fundamental_div_mod_converse(
                m,
                n,
                m2 / n + 1,
                m2 % n,
            );
        }
    }
}

/// Lazily groups a fallible sequence into batches of a fixed size.
pub trait TryChunks<V>: Sized {
    /// The items to be grouped.
    spec fn items_view(&self) -> Seq<Result<V, BncsvError>>;

    /// Groups the items into batches of up to `size` values; an error is
    /// the terminal element of its batch and ends the grouping.
    fn try_chunks(&self, size: usize) -> (r: TryChunked<V>)
        ensures
            chunks_post(self.items_view(), size as int, chunk_views(r.chunks@), r.error),
    ;
}

/// A subrange within a prefix is the same subrange of the whole sequence.
proof fn lemma_take_subrange<V>(s: Seq<V>, n: int, a: int, b: int)
    requires
        0 <= a <= b <= n <= s.len(),
    ensures
        s.take(n).subrange(a, b) == s.subrange(a, b),
{
    assert forall|x: int| 0 <= x < b - a implies s.take(n).subrange(a, b)[x] == s.subrange(
        a,
        b,
    )[x] by {
        assert(s.take(n)[a + x] == s[a + x]);
    }
    assert(s.take(n).subrange(a, b) =~= s.subrange(a, b));
}

/// The values of the `Ok` prefix of the first `i` items.
pub open spec fn vals_upto<V>(items: Seq<Result<V, BncsvError>>, i: int) -> Seq<V> {
    items.take(i).map_values(|x: Result<V, BncsvError>| x->Ok_0)
}

/// In a sequence whose first `i` items are all `Ok`, the `Ok` prefix is at
/// least `i` long, and exactly `i` if item `i` exists and is an error.
proof fn lemma_ok_prefix_at<V>(items: Seq<Result<V, BncsvError>>, i: int)
    requires
        0 <= i <= items.len(),
        forall|j: int| 0 <= j < i ==> (#[trigger] items[j]) is Ok,
        i < items.len() ==> items[i] is Err,
    ensures
        i < items.len() ==> ok_prefix_len(items) == i,
        i == items.len() ==> ok_prefix_len(items) == i,
        ok_vals(items) == vals_upto(items, i),
    decreases i,
{
    if i == 0 {
        if items.len() > 0 {
            assert(items[0] is Err);
        }
        assert(items.take(0) =~= Seq::<Result<V, BncsvError>>::empty());
        assert(ok_vals(items) =~= vals_upto(items, 0));
    } else {
        let d2 = items.skip(1);
        assert(items[0] is Ok);
        assert(forall|j: int| 0 <= j < i - 1 ==> (#[trigger] d2[j]) is Ok);
        assert(i - 1 < d2.len() ==> d2[i - 1] is Err);
        lemma_ok_prefix_at(d2, i - 1);
        assert(ok_prefix_len(items) == 1 + ok_prefix_len(d2));
        assert(ok_vals(items) =~= vals_upto(items, i)) by {
            let l = ok_prefix_len(items);
            assert(l == i);
        }
    }
}

impl<V: Copy> TryChunks<V> for Vec<Result<V, BncsvError>> {
    open spec fn items_view(&self) -> Seq<Result<V, BncsvError>> {
        self@
    }

    #[verifier::loop_isolation(false)]
    fn try_chunks(&self, size: usize) -> (r: TryChunked<V>) {
        let ghost sz = size as int;
        let mut chunks: Vec<Vec<V>> = Vec::new();
        let mut error: Option<BncsvError> = None;
        if size == 0 {
            return TryChunked { chunks, error };
        }
        let mut cur: Vec<V> = Vec::new();
        let mut i: usize = 0;
        proof {
            assert(0 * sz == 0) by (nonlinear_arith);
            assert(cur@ =~= vals_upto(self@, 0).subrange(0, 0));
        }
        while i < self.len()
            invariant
                i <= self@.len(),
                size >= 1,
                sz == size as int,
                forall|j: int| 0 <= j < i ==> (#[trigger] self@[j]) is Ok,
                cur@.len() < size,
                i == chunks@.len() * sz + cur@.len(),
                cur@ == vals_upto(self@, i as int).subrange(chunks@.len() * sz, i as int),
                forall|k: int|
                    0 <= k < chunks@.len() ==> #[trigger] chunks@[k]@ == vals_upto(
                        self@,
                        i as int,
                    ).subrange(k * sz, (k + 1) * sz),
            decreases self@.len() - i,
        {
            let ghost pv = vals_upto(self@, i as int);
            let ghost c0 = chunks@.len() as int;
            proof {
                assert(vals_upto(self@, i + 1).take(i as int) =~= pv);
                vstd::arithmetic::mul::lemma_mul_nonnegative(c0, sz);
            }
            match &self[i] {
                Ok(v) => {
                    let value = *v;
                    proof {
                        assert(vals_upto(self@, i + 1)[i as int] == value);
                        assert forall|k: int| 0 <= k < c0 implies #[trigger] chunks@[k]@
                            == vals_upto(self@, i + 1).subrange(k * sz, (k + 1) * sz) by {
                            vstd::arithmetic::mul::lemma_mul_nonnegative(k, sz);
                            vstd::arithmetic::mul::lemma_mul_inequality(k + 1, c0, sz);
                            vstd::arithmetic::mul::lemma_mul_inequality(k, k + 1, sz);
                            assert(chunks@[k]@ == pv.subrange(k * sz, (k + 1) * sz));
                            let vfull = vals_upto(self@, i + 1);
                            lemma_take_subrange(vfull, i as int, k * sz, (k + 1) * sz);
                            assert(pv.subrange(k * sz, (k + 1) * sz) == vfull.take(
                                i as int,
                            ).subrange(k * sz, (k + 1) * sz));
                        }
                        assert(cur@.push(value) =~= vals_upto(self@, i + 1).subrange(
                            c0 * sz,
                            i + 1,
                        ));
                    }
                    cur.push(value);
                    if cur.len() == size {
                        proof {
                            assert((c0 + 1) * sz == c0 * sz + sz) by (nonlinear_arith);
                            assert(cur@ == vals_upto(self@, i + 1).subrange(
                                c0 * sz,
                                (c0 + 1) * sz,
                            ));
                        }
                        chunks.push(cur);
                        cur = Vec::new();
                        proof {
                            assert(cur@ =~= vals_upto(self@, i + 1).subrange(
                                (c0 + 1) * sz,
                                i + 1,
                            ));
                        }
                    }
                },
                Err(e) => {
                    let err = *e;
                    proof {
                        lemma_ok_prefix_at(self@, i as int);
                        assert(ok_vals(self@) == pv);
                        assert(pv.len() == i);
                        assert(i as int / sz == c0 && i as int % sz == cur@.len()) by {
                            vstd::arithmetic::div_mod::lemma_fundamental_div_mod_converse(
                                i as int,
                                sz,
                                c0,
                                cur@.len() as int,
                            );
                        }
                        let kept = pv.take(sz * c0);
                        assert(sz * c0 == c0 * sz) by (nonlinear_arith);
                        lemma_chunking(kept, sz);
                        let cs = chunk_seq(kept, sz);
                        assert(cs.len() == c0) by {
                            assert((c0 * sz + sz - 1) / sz == c0) by {
                                assert(c0 * sz == sz * c0) by (nonlinear_arith);
                                vstd::arithmetic::div_mod::lemma_fundamental_div_mod_converse(
                                    c0 * sz + sz - 1,
                                    sz,
                                    c0,
                                    sz - 1,
                                );
                            }
                        }
                        assert forall|k: int| 0 <= k < c0 implies #[trigger] chunk_views(
                            chunks@,
                        )[k] == cs[k] by {
                            vstd::arithmetic::mul::lemma_mul_inequality(k + 1, c0, sz);
                            vstd::arithmetic::mul::lemma_mul_nonnegative(k, sz);
                            vstd::arithmetic::mul::lemma_mul_inequality(k, k + 1, sz);
                            assert(kept.len() == c0 * sz);
                            assert(cs[k] == kept.subrange(
                                k * sz,
                                (if ((k + 1) * sz) < kept.len() {
                                    (k + 1) * sz
                                } else {
                                    kept.len() as int
                                }),
                            ));
                            assert(chunks@[k]@ == pv.subrange(k * sz, (k + 1) * sz));
                            lemma_take_subrange(pv, sz * c0, k * sz, (k + 1) * sz);
                        }
                        assert(chunk_views(chunks@) =~= cs);
                    }
                    return TryChunked { chunks, error: Some(err) };
                },
            }
            i += 1;
        }
        let ghost c0 = chunks@.len() as int;
        let ghost tail_len = cur@.len() as int;
        if cur.len() > 0 {
            chunks.push(cur);
        }
        proof {
            lemma_ok_prefix_at(self@, self@.len() as int);
            let vals = ok_vals(self@);
            assert(vals == vals_upto(self@, self@.len() as int));
            assert(vals.len() == i);
            lemma_chunking(vals, sz);
            let cs = chunk_seq(vals, sz);
            let c = chunks@.len() as int;
            assert(i == c0 * sz + tail_len);
            assert((c0 + 1) * sz == c0 * sz + sz) by (nonlinear_arith);
            vstd::arithmetic::mul::lemma_mul_nonnegative(c0, sz);
            assert(cs.len() == c) by {
                if tail_len == 0 {
                    assert(i == c0 * sz && c == c0);
                    if i == 0 {
                        assert(c0 == 0) by (nonlinear_arith)
                            requires
                                c0 * sz == 0,
                                sz >= 1,
                                c0 >= 0,
                        ;
                    } else {
                        assert((i + sz - 1) / sz == c0) by {
                            vstd::arithmetic::div_mod::lemma_fundamental_div_mod_converse(
                                i + sz - 1,
                                sz,
                                c0,
                                sz - 1,
                            );
                        }
                    }
                } else {
                    assert(c == c0 + 1);
                    assert((i + sz - 1) / sz == c0 + 1) by {
                        assert(i + sz - 1 == (c0 + 1) * sz + (tail_len - 1));
                        vstd::arithmetic::div_mod::lemma_fundamental_div_mod_converse(
                            i + sz - 1,
                            sz,
                            c0 + 1,
                            tail_len - 1,
                        );
                    }
                }
            }
            assert forall|k: int| 0 <= k < c implies #[trigger] chunk_views(chunks@)[k]
                == cs[k] by {
                vstd::arithmetic::mul::lemma_mul_inequality(k + 1, c, sz);
                vstd::arithmetic::mul::lemma_mul_nonnegative(k, sz);
                vstd::arithmetic::mul::lemma_mul_inequality(k, k + 1, sz);
                assert(cs[k] == vals.subrange(
                    k * sz,
                    (if ((k + 1) * sz) < vals.len() {
                        (k + 1) * sz
                    } else {
                        vals.len() as int
                    }),
                ));
                if k < c0 {
                    assert(chunks@[k]@ == vals.subrange(k * sz, (k + 1) * sz));
                    assert((k + 1) * sz <= c0 * sz) by {
                        vstd::arithmetic::mul::lemma_mul_inequality(k + 1, c0, sz);
                    }
                } else {
                    assert(k == c0 && tail_len > 0);
                    assert(chunks@[k]@ == vals.subrange(c0 * sz, i as int));
                    assert(vals.subrange(c0 * sz, i as int) =~= vals.subrange(
                        k * sz,
                        (if ((k + 1) * sz) < vals.len() {
                            (k + 1) * sz
                        } else {
                            vals.len() as int
                        }),
                    ));
                }
            }
            assert(chunk_views(chunks@) =~= cs);
        }
        TryChunked { chunks, error: None }
    }
}

} // verus!
