//! The deterministic sampler: a seed given as hexadecimal text becomes a
//! byte buffer, and a cursor walks that buffer (wrapping once exhausted) to
//! produce bounded pseudo-random integers. For a fixed seed and a fixed
//! sequence of calls every returned value is fully determined, which is what
//! makes the generated topology reproducible.
use vstd::prelude::*;
use vstd::string::*;

verus! {

/// The error returned when the seed text is not non-empty hexadecimal.
#[derive(Clone, Copy, PartialEq, Eq, Structural, Debug)]
pub enum SeedError {
    InvalidSeed,
}

/// True when `c` is an ASCII hexadecimal digit.
pub open spec fn is_hex_digit(c: char) -> bool {
    (48 <= c as u32 && c as u32 <= 57)  // '0'..='9'
    || (97 <= c as u32 && c as u32 <= 102)  // 'a'..='f'
    || (65 <= c as u32 && c as u32 <= 70)  // 'A'..='F'
}

/// The numeric value of a hexadecimal digit.
pub open spec fn hex_digit_val(c: char) -> u8
    recommends
        is_hex_digit(c),
{
    if 48 <= c as u32 && c as u32 <= 57 {
        (c as u32 - 48) as u8
    } else if 97 <= c as u32 && c as u32 <= 102 {
        (c as u32 - 87) as u8
    } else {
        (c as u32 - 55) as u8
    }
}

/// The byte buffer a hexadecimal seed denotes: the characters are taken two
/// at a time, most significant first; a trailing lone digit stands for its
/// own value.
pub open spec fn seed_store(s: Seq<char>) -> Seq<u8> {
    Seq::new(((s.len() + 1) / 2) as nat, |i: int|
        if 2 * i + 1 < s.len() {
            (hex_digit_val(s[2 * i]) * 16 + hex_digit_val(s[2 * i + 1])) as u8
        } else {
            hex_digit_val(s[2 * i])
        })
}

/// The byte the cursor reads `k` positions ahead, wrapping around the store.
pub open spec fn byte_at(s: Seq<u8>, cur: int, k: int) -> u8
    recommends
        s.len() > 0,
{
    s[(cur + k) % (s.len() as int)]
}

/// The 32-bit value four consecutive bytes denote, most significant first.
pub open spec fn u32_at(s: Seq<u8>, cur: int) -> int
    recommends
        s.len() > 0,
{
    byte_at(s, cur, 0) * 0x1000000 + byte_at(s, cur, 1) * 0x10000 + byte_at(s, cur, 2) * 0x100
        + byte_at(s, cur, 3)
}

/// The seeded sampler: a byte buffer and a cursor into it.
#[derive(Debug)]
pub struct Seeder {
    store: Vec<u8>,
    cursor: usize,
}

impl Seeder {
    /// The bytes the sampler draws from.
    pub closed spec fn bytes(self) -> Seq<u8> {
        self.store@
    }

    /// The cursor's current position.
    pub closed spec fn cur(self) -> int {
        self.cursor as int
    }

    /// A usable sampler has a non-empty store and an in-bounds cursor.
    pub open spec fn wf(self) -> bool {
        self.bytes().len() > 0 && 0 <= self.cur() < self.bytes().len()
    }

    /// Parses a seed given as hexadecimal text. Succeeds exactly when the
    /// text is non-empty and every character is a hexadecimal digit; the
    /// resulting store is the denoted byte buffer with the cursor at its
    /// start.
    pub fn try_from_seed(seed: String) -> (r: Result<Seeder, SeedError>)
        ensures
            r is Ok <==> seed@.len() > 0 && (forall|i: int|
                0 <= i < seed@.len() ==> is_hex_digit(#[trigger] seed@[i])),
            r matches Ok(s) ==> s.wf() && s.bytes() == seed_store(seed@) && s.cur() == 0,
    {
        let slice = seed.as_str();
        let n = slice.unicode_len();
        if n == 0 {
            return Err(SeedError::InvalidSeed);
        }
        let mut store: Vec<u8> = Vec::new();
        let mut i: usize = 0;
        while i < n
            invariant
                n == seed@.len(),
                slice@ == seed@,
                i <= n,
                i % 2 == 0 || i == n,
                store@.len() == (i + 1) / 2,
                forall|j: int| 0 <= j < i ==> is_hex_digit(#[trigger] seed@[j]),
                forall|j: int| 0 <= j < store@.len() ==> store@[j] == seed_store(seed@)[j],
            decreases n - i,
        {
            let c = slice.get_char(i);
            let hi = match hex_val_of(c) {
                Some(v) => v,
                None => { return Err(SeedError::InvalidSeed); },
            };
            if i + 1 < n {
                let c2 = slice.get_char(i + 1);
                let lo = match hex_val_of(c2) {
                    Some(v) => v,
                    None => { return Err(SeedError::InvalidSeed); },
                };
                store.push(hi * 16 + lo);
                i = i + 2;
            } else {
                store.push(hi);
                i = i + 1;
            }
        }
        proof {
            assert(store@ =~= seed_store(seed@));
        }
        Ok(Seeder { store, cursor: 0 })
    }

    /// Returns the byte at the cursor and advances the cursor, wrapping at
    /// the end of the store.
    pub fn seed(&mut self) -> (r: u8)
        requires
            old(self).wf(),
        ensures
            final(self).wf(),
            final(self).bytes() == old(self).bytes(),
            r == byte_at(old(self).bytes(), old(self).cur(), 0),
            final(self).cur() == (old(self).cur() + 1) % (old(self).bytes().len() as int),
    {
        let len = self.store.len();
        let r = self.store[self.cursor];
        self.cursor = (self.cursor + 1) % len;
        proof {
            assert(old(self).cur() % (old(self).bytes().len() as int) == old(self).cur()) by {
                vstd::arithmetic::div_mod::lemma_small_mod(
                    old(self).cur() as nat,
                    old(self).bytes().len() as nat,
                );
            }
        }
        r
    }

    /// Combines the next four bytes, most significant first, into an
    /// unsigned 32-bit integer.
    pub fn seed_u32(&mut self) -> (r: u32)
        requires
            old(self).wf(),
        ensures
            final(self).wf(),
            final(self).bytes() == old(self).bytes(),
            r == u32_at(old(self).bytes(), old(self).cur()),
            final(self).cur() == (old(self).cur() + 4) % (old(self).bytes().len() as int),
    {
        let ghost s = old(self).bytes();
        let ghost c0 = old(self).cur();
        let ghost n = old(self).bytes().len() as int;
        let b0 = self.seed();
        proof { lemma_cursor_step(s, c0, 1); }
        let b1 = self.seed();
        proof { lemma_cursor_step(s, c0, 2); }
        let b2 = self.seed();
        proof { lemma_cursor_step(s, c0, 3); }
        let b3 = self.seed();
        proof { lemma_cursor_step(s, c0, 4); }
        (b0 as u32) * 0x1000000 + (b1 as u32) * 0x10000 + (b2 as u32) * 0x100 + (b3 as u32)
    }

    /// Returns `lower_bound + seed_u32() mod (upper_bound - lower_bound + 1)`:
    /// a value in `[lower_bound, upper_bound]`. The modulo bias when the
    /// range size does not divide 2^32 is accepted, not corrected, so that
    /// plans stay reproducible.
    pub fn seed_u32_bounded(&mut self, lower_bound: u32, upper_bound: u32) -> (r: u32)
        requires
            old(self).wf(),
            lower_bound <= upper_bound,
            upper_bound - lower_bound < u32::MAX,
        ensures
            final(self).wf(),
            final(self).bytes() == old(self).bytes(),
            r == lower_bound + u32_at(old(self).bytes(), old(self).cur()) % (upper_bound
                - lower_bound + 1),
            lower_bound <= r <= upper_bound,
            final(self).cur() == (old(self).cur() + 4) % (old(self).bytes().len() as int),
    {
        let v = self.seed_u32();
        v % (upper_bound - lower_bound + 1) + lower_bound
    }
}

/// The hexadecimal value of `c`, or `None` when `c` is not a hex digit.
fn hex_val_of(c: char) -> (r: Option<u8>)
    ensures
        match r {
            Some(v) => is_hex_digit(c) && v == hex_digit_val(c),
            None => !is_hex_digit(c),
        },
{
    let u = c as u32;
    if 48 <= u && u <= 57 {
        Some((u - 48) as u8)
    } else if 97 <= u && u <= 102 {
        Some((u - 87) as u8)
    } else if 65 <= u && u <= 70 {
        Some((u - 55) as u8)
    } else {
        None
    }
}

/// Advancing the cursor one byte at a time `k` times lands on
/// `(start + k) mod len`.
proof fn lemma_cursor_step(s: Seq<u8>, c: int, k: int)
    requires
        s.len() > 0,
        0 <= c < s.len(),
        k >= 1,
    ensures
        ((c + (k - 1)) % (s.len() as int) + 1) % (s.len() as int) == (c + k) % (s.len() as int),
        byte_at(s, (c + (k - 1)) % (s.len() as int), 0) == byte_at(s, c, k - 1),
{
    let n = s.len() as int;
    vstd::arithmetic::div_mod::lemma_mod_bound(c + (k - 1), n);
    vstd::arithmetic::div_mod::lemma_add_mod_noop(c + (k - 1), 1, n);
    vstd::arithmetic::div_mod::lemma_mod_twice(c + (k - 1), n);
    if n == 1 {
        vstd::arithmetic::div_mod::lemma_mod_bound(c + k, n);
        vstd::arithmetic::div_mod::lemma_mod_self_0(n);
    } else {
        vstd::arithmetic::div_mod::lemma_small_mod(1nat, n as nat);
    }
}

} // verus!
