//! Sessions in order, the one that started last in front.
use crate::session::{session_views, AgentSession, Session};
use vstd::prelude::*;

verus! {

/// No session stands in front of one that started later.
pub open spec fn is_newest_first(s: Seq<Session>) -> bool {
    forall|i: int, j: int| 0 <= i < j < s.len() ==> s[i].started_at >= s[j].started_at
}

/// The sessions that started at this time, in their order.
pub open spec fn with_start(s: Seq<Session>, at: u64) -> Seq<Session>
    decreases s.len(),
{
    if s.len() == 0 {
        seq![]
    } else if s[0].started_at == at {
        seq![s[0]] + with_start(s.drop_first(), at)
    } else {
        with_start(s.drop_first(), at)
    }
}

/// `out` is `s` in order: the newest in front, and those that started at the same time as they
/// stand in `s`.
pub open spec fn is_ordered(out: Seq<Session>, s: Seq<Session>) -> bool {
    &&& is_newest_first(out)
    &&& forall|at: u64| #[trigger] with_start(out, at) == with_start(s, at)
}

proof fn lemma_with_start_concat(a: Seq<Session>, b: Seq<Session>, at: u64)
    ensures
        with_start(a + b, at) == with_start(a, at) + with_start(b, at),
    decreases a.len(),
{
    if a.len() == 0 {
        assert(a + b =~= b);
        assert(with_start(a + b, at) =~= with_start(a, at) + with_start(b, at));
    } else {
        assert((a + b).drop_first() =~= a.drop_first() + b);
        lemma_with_start_concat(a.drop_first(), b, at);
        assert(with_start(a + b, at) =~= with_start(a, at) + with_start(b, at));
    }
}

proof fn lemma_with_start_none(s: Seq<Session>, at: u64)
    requires
        forall|i: int| 0 <= i < s.len() ==> (#[trigger] s[i]).started_at != at,
    ensures
        with_start(s, at) == Seq::<Session>::empty(),
    decreases s.len(),
{
    if s.len() > 0 {
        assert(s[0].started_at != at);
        assert forall|i: int| 0 <= i < s.drop_first().len() implies (
        #[trigger] s.drop_first()[i]).started_at != at by {
            assert(s.drop_first()[i] == s[i + 1]);
        }
        lemma_with_start_none(s.drop_first(), at);
    }
}

/// A session goes in front of those that started no later.
proof fn lemma_insert(out: Seq<Session>, x: Session, rest: Seq<Session>, n: int)
    requires
        is_ordered(out, rest),
        0 <= n <= out.len(),
        forall|i: int| 0 <= i < n ==> (#[trigger] out[i]).started_at > x.started_at,
        n < out.len() ==> out[n].started_at <= x.started_at,
    ensures
        is_ordered(out.insert(n, x), seq![x] + rest),
{
    let front = out.take(n);
    let back = out.skip(n);
    let new = out.insert(n, x);
    assert(out =~= front + back);
    assert(new =~= front + (seq![x] + back));
    assert forall|at: u64| #[trigger] with_start(new, at) == with_start(seq![x] + rest, at) by {
        lemma_with_start_concat(front, back, at);
        lemma_with_start_concat(front, seq![x] + back, at);
        assert((seq![x] + back).drop_first() =~= back);
        assert((seq![x] + rest).drop_first() =~= rest);
        assert(with_start(out, at) == with_start(rest, at));
        if x.started_at == at {
            lemma_with_start_none(front, at);
            assert(with_start(new, at) =~= with_start(seq![x] + rest, at));
        }
    }
}

/// The sessions in order.
pub fn newest_first(sessions: Vec<AgentSession>) -> (r: Vec<AgentSession>)
    ensures
        is_ordered(session_views(r@), session_views(sessions@)),
        r@.len() == sessions@.len(),
        forall|i: int, j: int|
            0 <= i < j < r@.len() ==> #[trigger] r@[i].started_at >= #[trigger] r@[j].started_at,
        session_views(r@).to_multiset() == session_views(sessions@).to_multiset(),
{
    let ghost all = session_views(sessions@);
    let mut rest = sessions;
    let mut out: Vec<AgentSession> = Vec::new();
    assert(session_views(out@) =~= all.skip(rest@.len() as int));
    loop
        invariant
            all == session_views(sessions@),
            rest@.len() <= all.len(),
            session_views(rest@) == all.take(rest@.len() as int),
            is_ordered(session_views(out@), all.skip(rest@.len() as int)),
        decreases rest@.len(),
    {
        let ghost earlier = rest@;
        match rest.pop() {
            Some(session) => {
                let mut n: usize = 0;
                while n < out.len() && out[n].started_at > session.started_at
                    invariant
                        n <= out@.len(),
                        forall|i: int|
                            0 <= i < n ==> (#[trigger] out@[i]).started_at > session.started_at,
                    decreases out@.len() - n,
                {
                    n += 1;
                }
                let ghost views = session_views(out@);
                proof {
                    let k = rest@.len() as int;
                    assert(session_views(earlier)[k] == session@);
                    assert(all[k] == session@) by {
                        assert(all.take(k + 1)[k] == all[k]);
                    }
                    assert(all.skip(k) =~= seq![session@] + all.skip(k + 1));
                    assert(session_views(rest@) =~= all.take(k)) by {
                        assert(session_views(rest@) =~= session_views(earlier).drop_last());
                        assert(all.take(k + 1).drop_last() =~= all.take(k));
                    }
                    assert forall|i: int| 0 <= i < n implies (#[trigger] views[i]).started_at
                        > session@.started_at by {
                        assert(out@[i].started_at > session.started_at);
                    }
                    lemma_insert(views, session@, all.skip(k + 1), n as int);
                }
                out.insert(n, session);
                assert(session_views(out@) =~= views.insert(n as int, session@));
            },
            None => {
                assert(all.skip(0) =~= all);
                proof {
                    let views = session_views(out@);
                    law_order_is_a_stable_permutation(views, all, 0);
                    views.to_multiset_ensures();
                    all.to_multiset_ensures();
                    assert forall|i: int, j: int| 0 <= i < j < out@.len() implies (
                    #[trigger] out@[i]).started_at >= (#[trigger] out@[j]).started_at by {
                        assert(views[i].started_at >= views[j].started_at);
                    }
                }
                return out;
            },
        }
    }
}

proof fn lemma_with_start_head(s: Seq<Session>)
    requires
        s.len() > 0,
    ensures
        with_start(s, s[0].started_at).len() > 0,
        with_start(s, s[0].started_at)[0] == s[0],
{
}

/// What `with_start` lists stands in the sequence and started at the time.
proof fn lemma_with_start_contains(s: Seq<Session>, at: u64, x: Session)
    ensures
        with_start(s, at).contains(x) <==> s.contains(x) && x.started_at == at,
    decreases s.len(),
{
    if s.len() > 0 {
        let rest = s.drop_first();
        lemma_with_start_contains(rest, at, x);
        assert(s.contains(x) <==> s[0] == x || rest.contains(x)) by {
            if s.contains(x) && s[0] != x {
                assert(rest[s.index_of(x) - 1] == x);
            }
            if rest.contains(x) {
                assert(s[rest.index_of(x) + 1] == x);
            }
        }
        if s[0].started_at == at {
            let later = with_start(rest, at);
            let w = seq![s[0]] + later;
            assert(w.contains(x) <==> s[0] == x || later.contains(x)) by {
                if w.contains(x) && s[0] != x {
                    assert(later[w.index_of(x) - 1] == x);
                }
                if later.contains(x) {
                    assert(w[later.index_of(x) + 1] == x);
                }
                if s[0] == x {
                    assert(w[0] == x);
                }
            }
        }
    }
}

/// Putting sessions in order neither adds nor loses one.
pub proof fn law_order_keeps_sessions(out: Seq<Session>, s: Seq<Session>)
    requires
        is_ordered(out, s),
    ensures
        forall|x: Session| out.contains(x) <==> s.contains(x),
{
    assert forall|x: Session| out.contains(x) <==> s.contains(x) by {
        lemma_with_start_contains(out, x.started_at, x);
        lemma_with_start_contains(s, x.started_at, x);
        assert(with_start(out, x.started_at) == with_start(s, x.started_at));
    }
}

/// There is one order only.
pub proof fn law_order_is_unique(a: Seq<Session>, b: Seq<Session>, s: Seq<Session>)
    requires
        is_ordered(a, s),
        is_ordered(b, s),
    ensures
        a == b,
{
    assert forall|at: u64| #[trigger] with_start(a, at) == with_start(b, at) by {
        assert(with_start(a, at) == with_start(s, at));
        assert(with_start(b, at) == with_start(s, at));
    }
    lemma_same_groups(a, b);
}

proof fn lemma_same_groups(a: Seq<Session>, b: Seq<Session>)
    requires
        is_newest_first(a),
        is_newest_first(b),
        forall|at: u64| #[trigger] with_start(a, at) == with_start(b, at),
    ensures
        a == b,
    decreases a.len() + b.len(),
{
    if a.len() == 0 {
        if b.len() > 0 {
            lemma_with_start_head(b);
            assert(with_start(a, b[0].started_at) == with_start(b, b[0].started_at));
        }
        assert(a =~= b);
    } else {
        lemma_with_start_head(a);
        let at = a[0].started_at;
        assert(with_start(a, at) == with_start(b, at));
        if b.len() == 0 {
            assert(false);
        }
        lemma_with_start_head(b);
        let bt = b[0].started_at;
        assert(with_start(a, bt) == with_start(b, bt));
        if at > bt {
            assert forall|i: int| 0 <= i < b.len() implies (#[trigger] b[i]).started_at != at by {
                if i > 0 {
                    assert(b[0].started_at >= b[i].started_at);
                }
            }
            lemma_with_start_none(b, at);
        }
        if bt > at {
            assert forall|i: int| 0 <= i < a.len() implies (#[trigger] a[i]).started_at != bt by {
                if i > 0 {
                    assert(a[0].started_at >= a[i].started_at);
                }
            }
            lemma_with_start_none(a, bt);
        }
        assert(a[0] == b[0]);
        let ra = a.drop_first();
        let rb = b.drop_first();
        assert forall|t: u64| #[trigger] with_start(ra, t) == with_start(rb, t) by {
            assert(with_start(a, t) == with_start(b, t));
            if t == at {
                assert(with_start(a, t).drop_first() =~= with_start(ra, t));
                assert(with_start(b, t).drop_first() =~= with_start(rb, t));
            }
        }
        assert forall|i: int, j: int| 0 <= i < j < ra.len() implies ra[i].started_at
            >= ra[j].started_at by {
            assert(a[i + 1].started_at >= a[j + 1].started_at);
        }
        assert forall|i: int, j: int| 0 <= i < j < rb.len() implies rb[i].started_at
            >= rb[j].started_at by {
            assert(b[i + 1].started_at >= b[j + 1].started_at);
        }
        lemma_same_groups(ra, rb);
        assert(a =~= seq![a[0]] + ra);
        assert(b =~= seq![b[0]] + rb);
    }
}

proof fn lemma_with_start_is_filter(s: Seq<Session>, at: u64)
    ensures
        with_start(s, at) == s.filter(|x: Session| x.started_at == at),
    decreases s.len(),
{
    reveal(Seq::filter);
    if s.len() > 0 {
        let last = seq![s.last()];
        lemma_with_start_is_filter(s.drop_last(), at);
        lemma_with_start_concat(s.drop_last(), last, at);
        assert(s =~= s.drop_last() + last);
        assert(with_start(last.drop_first(), at) =~= seq![]);
        assert(with_start(last, at) =~= if s.last().started_at == at {
            last
        } else {
            seq![]
        });
        assert(with_start(s, at) =~= s.filter(|x: Session| x.started_at == at));
    } else {
        assert(with_start(s, at) =~= s.filter(|x: Session| x.started_at == at));
    }
}

proof fn lemma_count_with_start(s: Seq<Session>, x: Session)
    ensures
        s.to_multiset().count(x) == with_start(s, x.started_at).to_multiset().count(x),
    decreases s.len(),
{
    if s.len() > 0 {
        let head = seq![s[0]];
        let rest = s.drop_first();
        let later = with_start(rest, x.started_at);
        lemma_count_with_start(rest, x);
        assert(s =~= head + rest);
        vstd::seq_lib::lemma_multiset_commutative(head, rest);
        vstd::seq_lib::lemma_multiset_commutative(head, later);
        if s[0].started_at != x.started_at {
            assert(head =~= Seq::<Session>::empty().push(s[0]));
            Seq::<Session>::empty().to_multiset_ensures();
            head.to_multiset_ensures();
            assert(head.to_multiset().count(x) == 0);
        }
    } else {
        assert(with_start(s, x.started_at) =~= s);
    }
}

/// Sessions in order are the same sessions, each as often as before, the one that started later in
/// front; and those that started at the same time stand as they stood.
pub proof fn law_order_is_a_stable_permutation(out: Seq<Session>, s: Seq<Session>, at: u64)
    requires
        is_ordered(out, s),
    ensures
        forall|i: int, j: int| 0 <= i < j < out.len() ==> out[i].started_at >= out[j].started_at,
        out.to_multiset() == s.to_multiset(),
        out.filter(|x: Session| x.started_at == at) == s.filter(|x: Session| x.started_at == at),
{
    assert forall|x: Session| out.to_multiset().count(x) == s.to_multiset().count(x) by {
        lemma_count_with_start(out, x);
        lemma_count_with_start(s, x);
        assert(with_start(out, x.started_at) == with_start(s, x.started_at));
    }
    assert(out.to_multiset() =~= s.to_multiset());
    lemma_with_start_is_filter(out, at);
    lemma_with_start_is_filter(s, at);
    assert(with_start(out, at) == with_start(s, at));
}

} // verus!
