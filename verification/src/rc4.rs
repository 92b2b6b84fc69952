//! The RC4 stream cipher, by which application data is kept from prying eyes.
use vstd::prelude::*;

verus! {

/// What an RC4 key state holds: a permutation of the bytes and two positions in it.
pub struct KeyView {
    /// The permutation.
    pub s: Seq<u8>,
    /// The first position.
    pub i: u8,
    /// The second position.
    pub j: u8,
}

/// `s` with two of its items swapped.
pub open spec fn swapped(s: Seq<u8>, a: int, b: int) -> Seq<u8> {
    s.update(a, s[b]).update(b, s[a])
}

/// The permutation and the second position after `n` steps of scheduling `key`.
pub open spec fn scheduled(key: Seq<u8>, n: nat) -> (Seq<u8>, int)
    decreases n,
{
    if n == 0 {
        (Seq::new(256, |k: int| k as u8), 0)
    } else {
        let (s, j) = scheduled(key, (n - 1) as nat);
        let next = (j + s[n - 1] + key[(n - 1) % (key.len() as int)]) % 256;
        (swapped(s, n - 1, next), next)
    }
}

impl KeyView {
    /// The state that `key` gives.
    pub open spec fn from_key(key: Seq<u8>) -> KeyView {
        KeyView { s: scheduled(key, 256).0, i: 0, j: 0 }
    }

    /// The state after one step.
    pub open spec fn step(self) -> KeyView {
        let i = (self.i + 1) % 256;
        let j = (self.j + self.s[i]) % 256;
        KeyView { s: swapped(self.s, i, j), i: i as u8, j: j as u8 }
    }

    /// The state after `n` steps.
    pub open spec fn after(self, n: nat) -> KeyView
        decreases n,
    {
        if n == 0 {
            self
        } else {
            self.after((n - 1) as nat).step()
        }
    }

    /// The key stream byte that this state gives.
    pub open spec fn key_byte(self) -> u8 {
        self.s[(self.s[self.i as int] + self.s[self.j as int]) % 256]
    }

    /// `data` under the key stream from this state on: every byte is combined with the
    /// key stream byte of its own step.
    pub open spec fn applied(self, data: Seq<u8>) -> Seq<u8> {
        Seq::new(data.len(), |k: int| data[k] ^ self.after((k + 1) as nat).key_byte())
    }
}

/// What one key state enciphers, an equal key state deciphers.
pub proof fn applied_twice(key: KeyView, data: Seq<u8>)
    ensures
        key.applied(key.applied(data)) == data,
{
    assert forall|k: int| 0 <= k < data.len() implies #[trigger] key.applied(
        key.applied(data),
    )[k] == data[k] by {
        let d = data[k];
        let b = key.after((k + 1) as nat).key_byte();
        assert((d ^ b) ^ b == d) by (bit_vector);
    }
    assert(key.applied(key.applied(data)) =~= data);
}

/// Enciphers and deciphers a stream of bytes. Each byte moves the state on.
#[derive(Debug)]
pub struct Rc4KeyState {
    s: [u8; 256],
    i: u8,
    j: u8,
}

impl View for Rc4KeyState {
    type V = KeyView;

    closed spec fn view(&self) -> KeyView {
        KeyView { s: self.s@, i: self.i, j: self.j }
    }
}

impl Clone for Rc4KeyState {
    fn clone(&self) -> (r: Self)
        ensures
            r@ == self@,
    {
        Rc4KeyState { s: self.s, i: self.i, j: self.j }
    }
}

impl Rc4KeyState {
    /// The key state that `key` gives.
    pub fn new(key: &[u8]) -> (r: Rc4KeyState)
        requires
            key@.len() > 0,
        ensures
            r@ == KeyView::from_key(key@),
    {
        let mut s: [u8; 256] = [0u8; 256];
        let mut k: usize = 0;
        while k < 256
            invariant
                k <= 256,
                forall|m: int| 0 <= m < k ==> s@[m] == m,
            decreases 256 - k,
        {
            s[k] = k as u8;
            k = k + 1;
        }
        assert(s@ =~= scheduled(key@, 0).0);

        let mut j: usize = 0;
        let mut n: usize = 0;
        while n < 256
            invariant
                key@.len() > 0,
                n <= 256,
                j < 256,
                scheduled(key@, n as nat) == (s@, j as int),
            decreases 256 - n,
        {
            let ghost before = s@;
            let at: u8 = s[n];
            j = (j + at as usize + key[n % key.len()] as usize) % 256;
            let other: u8 = s[j];
            s[n] = other;
            s[j] = at;
            assert(s@ =~= swapped(before, n as int, j as int));
            n = n + 1;
        }
        Rc4KeyState { s, i: 0, j: 0 }
    }

    /// Combines every byte of `data` with the key stream.
    pub fn transform_in_place(&mut self, data: &mut [u8])
        ensures
            final(self)@ == old(self)@.after(old(data)@.len()),
            final(data)@ == old(self)@.applied(old(data)@),
    {
        let ghost key = self@;
        let ghost plain = data@;
        let len: usize = data.len();
        let mut n: usize = 0;
        while n < len
            invariant
                n <= len,
                len == plain.len(),
                data@.len() == len,
                self@ == key.after(n as nat),
                forall|k: int| 0 <= k < n ==> data@[k] == key.applied(plain)[k],
                forall|k: int| n <= k < len ==> data@[k] == plain[k],
            decreases len - n,
        {
            let ghost before = self@;
            let i: usize = (self.i as usize + 1) % 256;
            let at: u8 = self.s[i];
            let j: usize = (self.j as usize + at as usize) % 256;
            let other: u8 = self.s[j];
            self.s[i] = other;
            self.s[j] = at;
            self.i = i as u8;
            self.j = j as u8;
            assert(self@.s =~= swapped(before.s, i as int, j as int));
            assert(self@ == before.step());
            assert(key.after((n + 1) as nat) == before.step());
            let sum: usize = self.s[i] as usize + self.s[j] as usize;
            let k: u8 = self.s[sum % 256];
            let byte: u8 = data[n];
            data[n] = byte ^ k;
            n = n + 1;
        }
        assert(data@ =~= key.applied(plain));
    }
}

/// Whether a key state is that of RC4: it has 256 bytes, no two of which are the same.
pub open spec fn is_permutation(s: Seq<u8>) -> bool {
    &&& s.len() == 256
    &&& forall|a: int, b: int| 0 <= a < b < 256 ==> #[trigger] s[a] != #[trigger] s[b]
}

proof fn swap_keeps_permutation(s: Seq<u8>, a: int, b: int)
    requires
        is_permutation(s),
        0 <= a < 256,
        0 <= b < 256,
    ensures
        is_permutation(swapped(s, a, b)),
{
    let t = swapped(s, a, b);
    assert forall|x: int, y: int| 0 <= x < y < 256 implies #[trigger] t[x] != #[trigger] t[y] by {
        let p = if x == a {
            b
        } else if x == b {
            a
        } else {
            x
        };
        let q = if y == a {
            b
        } else if y == b {
            a
        } else {
            y
        };
        assert(t[x] == s[p] && t[y] == s[q]);
        if p < q {
            assert(s[p] != s[q]);
        } else {
            assert(s[q] != s[p]);
        }
    }
}

/// Each step moves the first position on by one, around all 256 places, and the second by
/// the byte at the first. It exchanges the bytes at the two positions and touches no
/// other.
pub proof fn step_exchanges_two_bytes(key: KeyView, place: int)
    requires
        key.s.len() == 256,
        0 <= place < 256,
    ensures
        ({
            let next = key.step();
            let i = next.i as int;
            let j = next.j as int;
            &&& next.s.len() == 256
            &&& i == (if key.i == 255 {
                0
            } else {
                key.i + 1
            })
            &&& j == (key.j + key.s[i]) % 256
            &&& next.s[i] == key.s[j]
            &&& next.s[j] == key.s[i]
            &&& place != i && place != j ==> next.s[place] == key.s[place]
        }),
{
}

/// The first position goes around all 256 places: after `n` steps it is `n` places on.
pub proof fn steps_go_around(key: KeyView, n: nat)
    requires
        key.s.len() == 256,
    ensures
        key.after(n).i as int == (key.i + n) % 256,
        key.after(n).s.len() == 256,
    decreases n,
{
    if n > 0 {
        steps_go_around(key, (n - 1) as nat);
    }
}

/// Over 256 steps the first position comes to every place once.
pub proof fn every_place_is_visited(key: KeyView, place: int)
    requires
        key.s.len() == 256,
        0 <= place < 256,
    ensures
        exists|n: nat| 1 <= n <= 256 && #[trigger] key.after(n).i == place,
        forall|m: nat, n: nat|
            1 <= m < n <= 256 ==> #[trigger] key.after(m).i != #[trigger] key.after(n).i,
{
    let n = (if place > key.i {
        place - key.i
    } else {
        place - key.i + 256
    }) as nat;
    steps_go_around(key, n);
    assert(key.after(n).i == place);
    assert forall|m: nat, n: nat| 1 <= m < n <= 256 implies #[trigger] key.after(m).i
        != #[trigger] key.after(n).i by {
        steps_go_around(key, m);
        steps_go_around(key, n);
    }
}

/// The states of a key are permutations of the bytes, from the first on.
pub proof fn states_are_permutations(key: Seq<u8>, n: nat)
    requires
        key.len() > 0,
    ensures
        is_permutation(KeyView::from_key(key).after(n).s),
    decreases n,
{
    if n == 0 {
        scheduled_is_permutation(key, 256);
    } else {
        states_are_permutations(key, (n - 1) as nat);
        let before = KeyView::from_key(key).after((n - 1) as nat);
        let i = (before.i + 1) % 256;
        swap_keeps_permutation(before.s, i, (before.j + before.s[i]) % 256);
    }
}

proof fn scheduled_is_permutation(key: Seq<u8>, n: nat)
    requires
        key.len() > 0,
        n <= 256,
    ensures
        is_permutation(scheduled(key, n).0),
        0 <= scheduled(key, n).1 < 256,
    decreases n,
{
    if n > 0 {
        scheduled_is_permutation(key, (n - 1) as nat);
        let (s, j) = scheduled(key, (n - 1) as nat);
        let next = (j + s[n - 1] + key[(n - 1) % (key.len() as int)]) % 256;
        swap_keeps_permutation(s, n - 1, next);
    }
}

/// The byte of the key stream that a state gives is the one at the place that the bytes
/// at its two positions add up to.
pub proof fn key_byte_is_looked_up(key: KeyView, place: int)
    requires
        key.s.len() == 256,
        0 <= place < 256,
        (key.s[key.i as int] + key.s[key.j as int] - place) % 256 == 0,
    ensures
        key.key_byte() == key.s[place],
{
}

/// A key is worked into the bytes in order over 256 rounds. Each round moves a position on
/// by the byte of its own place and the byte of the key that is next, going around the
/// key, and exchanges the bytes of the place and of that position.
pub proof fn key_is_worked_in(key: Seq<u8>, round: int, place: int)
    requires
        key.len() > 0,
        0 <= round < 256,
        0 <= place < 256,
    ensures
        scheduled(key, 0).0[place] == place,
        scheduled(key, 0).1 == 0,
        ({
            let (s, j) = scheduled(key, round as nat);
            let (t, k) = scheduled(key, (round + 1) as nat);
            &&& k == (j + s[round] + key[round % (key.len() as int)]) % 256
            &&& t[round] == s[k]
            &&& t[k] == s[round]
            &&& place != round && place != k ==> t[place] == s[place]
        }),
        KeyView::from_key(key).s == scheduled(key, 256).0,
        KeyView::from_key(key).i == 0,
        KeyView::from_key(key).j == 0,
{
    scheduled_is_permutation(key, round as nat);
}

/// What a key state does to data is a stream: what comes first goes first, and the state
/// that is left goes on with the rest.
pub proof fn applied_is_a_stream(key: KeyView, a: Seq<u8>, b: Seq<u8>)
    ensures
        key.applied(a + b) == key.applied(a) + key.after(a.len()).applied(b),
        key.applied(a).len() == a.len(),
        key.after(a.len() + b.len()) == key.after(a.len()).after(b.len()),
{
    after_adds_up(key, a.len(), b.len());
    assert forall|k: int| 0 <= k < a.len() + b.len() implies #[trigger] key.applied(a + b)[k] == (
    key.applied(a) + key.after(a.len()).applied(b))[k] by {
        if k >= a.len() {
            after_adds_up(key, a.len(), (k - a.len() + 1) as nat);
        }
    }
    assert(key.applied(a + b) =~= key.applied(a) + key.after(a.len()).applied(b));
}

proof fn after_adds_up(key: KeyView, m: nat, n: nat)
    ensures
        key.after(m + n) == key.after(m).after(n),
    decreases n,
{
    if n > 0 {
        after_adds_up(key, m, (n - 1) as nat);
    }
}

/// A byte is combined with the key stream byte of the state that the step before it left,
/// bit by bit: a byte of zero bits shows the key stream.
pub proof fn byte_is_combined(key: KeyView, byte: u8)
    ensures
        key.applied(seq![byte]) == seq![byte ^ key.step().key_byte()],
        key.applied(seq![0u8]) == seq![key.step().key_byte()],
{
    reveal_with_fuel(KeyView::after, 2);
    let b = key.step().key_byte();
    assert(0u8 ^ b == b) by (bit_vector);
    assert(key.applied(seq![byte]) =~= seq![byte ^ b]);
    assert(key.applied(seq![0u8]) =~= seq![b]);
}

} // verus!
