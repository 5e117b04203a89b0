use vstd::prelude::*;

verus! {

/// The patterns encoded in a NUL-separated buffer, given what has accumulated
/// of the current pattern: a non-NUL byte extends the current pattern, a NUL
/// closes it when it is non-empty, and bytes after the last NUL never form a
/// pattern.
pub open spec fn split_spec(s: Seq<u8>, cur: Seq<u8>) -> Seq<Seq<u8>>
    decreases s.len(),
{
    if s.len() == 0 {
        Seq::empty()
    } else if s[0] != 0 {
        split_spec(s.skip(1), cur.push(s[0]))
    } else if cur.len() > 0 {
        seq![cur] + split_spec(s.skip(1), Seq::empty())
    } else {
        split_spec(s.skip(1), Seq::empty())
    }
}

/// Splits a NUL-separated buffer into the list of patterns it encodes, in
/// order.  Runs of NULs produce no empty patterns, and a trailing pattern
/// not closed by a NUL is dropped.
pub fn split_patterns(buffer: &[u8]) -> (r: Vec<Vec<u8>>)
    ensures
        r.deep_view() == split_spec(buffer@, Seq::empty()),
{
    let mut result: Vec<Vec<u8>> = Vec::new();
    let mut cur: Vec<u8> = Vec::new();
    let mut i: usize = 0;
    proof {
        assert(buffer@.skip(0) =~= buffer@);
        assert(result.deep_view() + split_spec(buffer@, Seq::empty()) =~= split_spec(
            buffer@,
            Seq::empty(),
        ));
    }
    while i < buffer.len()
        invariant
            i <= buffer@.len(),
            split_spec(buffer@, Seq::empty()) == result.deep_view() + split_spec(
                buffer@.skip(i as int),
                cur@,
            ),
        decreases buffer@.len() - i,
    {
        let ghost pre = result.deep_view();
        let ghost cur0 = cur@;
        let ghost tail = buffer@.skip(i as int);
        proof {
            assert(tail[0] == buffer@[i as int]);
            assert(tail.skip(1) =~= buffer@.skip(i as int + 1));
        }
        let b: u8 = buffer[i];
        if b != 0 {
            cur.push(b);
            proof {
                assert(split_spec(tail, cur0) == split_spec(buffer@.skip(i as int + 1), cur@));
            }
        } else if cur.len() > 0 {
            let done: Vec<u8> = cur;
            cur = Vec::new();
            result.push(done);
            proof {
                assert(split_spec(tail, cur0) == seq![cur0] + split_spec(
                    buffer@.skip(i as int + 1),
                    Seq::empty(),
                ));
                assert(result.deep_view() =~~= pre.push(done@));
                assert(pre + (seq![done@] + split_spec(buffer@.skip(i as int + 1), Seq::empty()))
                    =~= pre.push(done@) + split_spec(buffer@.skip(i as int + 1), Seq::empty()));
                assert(cur@ =~= Seq::<u8>::empty());
            }
        } else {
            proof {
                assert(cur0 =~= Seq::<u8>::empty());
                assert(split_spec(tail, cur0) == split_spec(
                    buffer@.skip(i as int + 1),
                    Seq::empty(),
                ));
            }
        }
        i = i + 1;
    }
    proof {
        assert(buffer@.skip(buffer@.len() as int).len() == 0);
        assert(result.deep_view() + Seq::<Seq<u8>>::empty() =~= result.deep_view());
    }
    result
}

} // verus!
