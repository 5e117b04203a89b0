use vstd::prelude::*;

verus! {

/// What one pass of the byte scan yields: whether a stop byte or a double
/// dash was seen, and the value of the previous-byte cursor afterward.  The
/// cursor only advances past bytes that trip nothing, so an alarming byte is
/// seen again by a rescan.
pub open spec fn scan_spec(bad: Seq<bool>, prev: u8, bytes: Seq<u8>) -> (bool, u8)
    recommends
        bad.len() == 256,
    decreases bytes.len(),
{
    if bytes.len() == 0 {
        (false, prev)
    } else if bad[bytes[0] as int] {
        (true, prev)
    } else if bytes[0] == 45 && prev == 45 {
        (true, prev)
    } else {
        scan_spec(bad, bytes[0], bytes.skip(1))
    }
}

/// A lightweight byte scanner: a table of forbidden byte values, plus the
/// last byte seen, so that a double dash can be spotted even across chunk
/// boundaries.
pub struct Scanner {
    /// Entry `b` says whether byte value `b` is forbidden.
    pub bad_chars: Vec<bool>,
    /// The previous byte that tripped nothing; starts at 255 so no byte
    /// pairs with it as a double dash.
    pub prev_byte: u8,
}

impl Scanner {
    pub open spec fn wf(self) -> bool {
        self.bad_chars@.len() == 256
    }

    /// Builds the forbidden-byte table from the given stop bytes.
    pub fn new(stop_chars: &[u8]) -> (r: Scanner)
        ensures
            r.wf(),
            r.prev_byte == 255,
            forall|i: int|
                0 <= i < 256 ==> ((#[trigger] r.bad_chars@[i]) <==> stop_chars@.contains(
                    i as u8,
                )),
    {
        let mut bad_chars: Vec<bool> = Vec::new();
        let mut i: usize = 0;
        while i < 256
            invariant
                i <= 256,
                bad_chars@.len() == i,
                forall|j: int| 0 <= j < i ==> !(#[trigger] bad_chars@[j]),
            decreases 256 - i,
        {
            bad_chars.push(false);
            i = i + 1;
        }
        let mut k: usize = 0;
        while k < stop_chars.len()
            invariant
                k <= stop_chars@.len(),
                bad_chars@.len() == 256,
                forall|j: int|
                    0 <= j < 256 ==> ((#[trigger] bad_chars@[j]) <==> stop_chars@.take(
                        k as int,
                    ).contains(j as u8)),
            decreases stop_chars@.len() - k,
        {
            let c: u8 = stop_chars[k];
            let ghost before = bad_chars@;
            bad_chars[c as usize] = true;
            proof {
                assert forall|j: int|
                    0 <= j < 256 implies ((#[trigger] bad_chars@[j]) <==> stop_chars@.take(
                    k as int + 1,
                ).contains(j as u8)) by {
                    if stop_chars@.take(k as int + 1).contains(j as u8) {
                        let w = choose|w: int|
                            0 <= w < k + 1 && #[trigger] stop_chars@.take(k as int + 1)[w] == (
                            j as u8);
                        if w < k {
                            assert(stop_chars@.take(k as int)[w] == (j as u8));
                        }
                    }
                    if before[j] {
                        let w = choose|w: int|
                            0 <= w < k && #[trigger] stop_chars@.take(k as int)[w] == (j as u8);
                        assert(stop_chars@.take(k as int + 1)[w] == (j as u8));
                    }
                    if j == c as int {
                        assert(stop_chars@.take(k as int + 1)[k as int] == c);
                    }
                }
            }
            k = k + 1;
        }
        proof {
            assert(stop_chars@.take(stop_chars@.len() as int) =~= stop_chars@);
        }
        Scanner { bad_chars, prev_byte: 255 }
    }

    /// Reads one entry of the forbidden-byte table.
    pub fn get(&self, ix: usize) -> (r: bool)
        requires
            self.wf(),
            ix < 256,
        ensures
            r == self.bad_chars@[ix as int],
    {
        self.bad_chars[ix]
    }

    /// Scans a chunk and reports whether it holds a forbidden byte, or a
    /// dash directly after a dash (also across a chunk boundary).  Returns
    /// at the first hit, leaving the previous-byte cursor where it was.
    pub fn suspicious(&mut self, bytes: &[u8]) -> (r: bool)
        requires
            old(self).wf(),
        ensures
            final(self).wf(),
            final(self).bad_chars == old(self).bad_chars,
            ({
                let res = scan_spec(old(self).bad_chars@, old(self).prev_byte, bytes@);
                &&& r == res.0
                &&& final(self).prev_byte == res.1
            }),
    {
        let mut i: usize = 0;
        proof {
            assert(bytes@.skip(0) =~= bytes@);
        }
        while i < bytes.len()
            invariant
                self.wf(),
                self.bad_chars == old(self).bad_chars,
                i <= bytes@.len(),
                scan_spec(old(self).bad_chars@, old(self).prev_byte, bytes@) == scan_spec(
                    self.bad_chars@,
                    self.prev_byte,
                    bytes@.skip(i as int),
                ),
            decreases bytes@.len() - i,
        {
            let ghost tail = bytes@.skip(i as int);
            proof {
                assert(tail[0] == bytes@[i as int]);
                assert(tail.skip(1) =~= bytes@.skip(i as int + 1));
            }
            let b: u8 = bytes[i];
            if self.bad_chars[b as usize] {
                return true;
            }
            if b == 45 && self.prev_byte == 45 {
                return true;
            }
            self.prev_byte = b;
            i = i + 1;
        }
        false
    }
}

} // verus!
