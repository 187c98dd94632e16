//! The abstract memory-access capability that the codec reads and writes
//! through, a byte-buffer implementation of it, and address arithmetic.
//!
//! Memory is modelled as a partial map from addresses to bytes. A backend
//! serves a request exactly when the whole requested region lies inside that
//! map; a failed request reports the request's starting address and leaves
//! memory unchanged.

use vstd::prelude::*;

verus! {

/// The whole region `[addr, addr + n)` is backed by memory.
pub open spec fn region_in(m: Map<int, u8>, addr: int, n: nat) -> bool {
    forall|i: int| addr <= i < addr + n ==> m.dom().contains(i)
}

/// The `n` bytes stored at `addr`.
pub open spec fn bytes_at(m: Map<int, u8>, addr: int, n: nat) -> Seq<u8> {
    Seq::new(n, |i: int| m[addr + i])
}

/// Memory after the bytes `b` are stored at `addr`: the domain is unchanged,
/// the stored region holds `b`, everything else keeps its old byte.
pub open spec fn store_bytes(m: Map<int, u8>, addr: int, b: Seq<u8>) -> Map<int, u8> {
    Map::new(
        |i: int| m.dom().contains(i),
        |i: int| if addr <= i < addr + b.len() { b[i - addr] } else { m[i] },
    )
}

/// Address arithmetic wraps around the 64-bit address space.
pub open spec fn wrap_add(a: u64, b: u64) -> u64 {
    ((a + b) % 0x1_0000_0000_0000_0000) as u64
}

/// The unsigned magnitude of a signed number. Numbers used as addresses or
/// offsets always count by their absolute value.
pub open spec fn mag(n: i64) -> u64 {
    if n >= 0 {
        n as u64
    } else {
        (-(n as int)) as u64
    }
}

/// A failed memory access: the starting address of the request that the
/// backend refused, and the backend's message.
pub struct MemoryError {
    pub addr: u64,
    pub msg: String,
}

/// The memory-access capability: an externally owned resource that can read
/// and write byte regions. A request succeeds exactly when its whole region
/// is backed; reads never change memory, and a failed write leaves memory
/// unchanged.
pub trait MemoryAccess: Sized {
    /// The bytes the backend currently holds. A verified backend gives
    /// this its real value; a backend outside the verifier's view can
    /// leave the default in place, since nothing is proved about it.
    open spec fn contents(&self) -> Map<int, u8> {
        Map::empty()
    }

    /// The message the backend attaches to a refused request. It is part
    /// of the capability's model so that callers can promise to surface
    /// it verbatim; a backend outside the verifier's view can leave the
    /// default in place.
    open spec fn fail_msg(&self) -> Seq<char> {
        Seq::empty()
    }

    fn read_bytes(&mut self, addr: u64, n: u64) -> (r: Result<Vec<u8>, MemoryError>)
        ensures
            *final(self) == *old(self),
            match r {
                Ok(b) => region_in(old(self).contents(), addr as int, n as nat) && b@ == bytes_at(
                    old(self).contents(),
                    addr as int,
                    n as nat,
                ),
                Err(e) => !region_in(old(self).contents(), addr as int, n as nat) && e.addr
                    == addr && e.msg@ == old(self).fail_msg(),
            },
    ;

    fn write_bytes(&mut self, addr: u64, b: &[u8]) -> (r: Result<(), MemoryError>)
        ensures
            final(self).fail_msg() == old(self).fail_msg(),
            match r {
                Ok(_) => region_in(old(self).contents(), addr as int, b@.len())
                    && final(self).contents() == store_bytes(
                    old(self).contents(),
                    addr as int,
                    b@,
                ),
                Err(e) => !region_in(old(self).contents(), addr as int, b@.len()) && *final(self)
                    == *old(self) && e.addr == addr && e.msg@ == old(self).fail_msg(),
            },
    ;
}

/// A flat in-process memory: byte `i` of the buffer backs address `i`.
pub struct BufMemory {
    pub data: Vec<u8>,
}

impl BufMemory {
    pub fn new(data: Vec<u8>) -> (m: Self)
        ensures
            m.data@ == data@,
    {
        BufMemory { data }
    }
}

impl MemoryAccess for BufMemory {
    open spec fn contents(&self) -> Map<int, u8> {
        Map::new(|i: int| 0 <= i < self.data@.len(), |i: int| self.data@[i])
    }

    open spec fn fail_msg(&self) -> Seq<char> {
        "region is not backed by memory"@
    }

    fn read_bytes(&mut self, addr: u64, n: u64) -> (r: Result<Vec<u8>, MemoryError>) {
        if n == 0 {
            let out: Vec<u8> = Vec::new();
            assert(out@ =~= bytes_at(self.contents(), addr as int, n as nat));
            return Ok(out);
        }
        if addr >= self.data.len() as u64 || n > self.data.len() as u64 - addr {
            assert(!region_in(self.contents(), addr as int, n as nat)) by {
                let edge: int = if (addr as int) < (self.data@.len() as int) {
                    self.data@.len() as int
                } else {
                    addr as int
                };
                assert(addr as int <= edge < addr as int + n);
                assert(!self.contents().dom().contains(edge));
            }
            return Err(MemoryError { addr, msg: "region is not backed by memory".to_owned() });
        }
        let base = addr as usize;
        let count = n as usize;
        let mut out: Vec<u8> = Vec::new();
        let mut i: usize = 0;
        while i < count
            invariant
                i <= count,
                count == n,
                base + count <= self.data@.len(),
                self.data@.len() <= usize::MAX,
                base == addr as int,
                out@ =~= bytes_at(self.contents(), addr as int, i as nat),
            decreases count - i,
        {
            out.push(self.data[base + i]);
            i += 1;
            assert(out@ =~= bytes_at(self.contents(), addr as int, i as nat));
        }
        Ok(out)
    }

    fn write_bytes(&mut self, addr: u64, b: &[u8]) -> (r: Result<(), MemoryError>) {
        let n = b.len();
        if n == 0 {
            assert(self.contents() =~= store_bytes(self.contents(), addr as int, b@));
            return Ok(());
        }
        if addr >= self.data.len() as u64 || n as u64 > self.data.len() as u64 - addr {
            assert(!region_in(self.contents(), addr as int, n as nat)) by {
                let edge: int = if (addr as int) < (self.data@.len() as int) {
                    self.data@.len() as int
                } else {
                    addr as int
                };
                assert(addr as int <= edge < addr as int + n);
                assert(!self.contents().dom().contains(edge));
            }
            return Err(MemoryError { addr, msg: "region is not backed by memory".to_owned() });
        }
        let ghost start = *self;
        let base = addr as usize;
        let mut i: usize = 0;
        while i < n
            invariant
                i <= n,
                base + n <= self.data@.len(),
                self.data@.len() <= usize::MAX,
                base == addr as int,
                b@.len() == n,
                self.data@.len() == start.data@.len(),
                forall|j: int|
                    0 <= j < self.data@.len() ==> self.data@[j] == (if addr as int <= j
                        < addr as int + i {
                        b@[j - addr as int]
                    } else {
                        start.data@[j]
                    }),
            decreases n - i,
        {
            let byte = b[i];
            self.data.set(base + i, byte);
            i += 1;
        }
        assert(self.contents() =~= store_bytes(start.contents(), addr as int, b@));
        Ok(())
    }
}

/// The hexadecimal digit of a nibble.
pub open spec fn hex_digit(n: u64) -> char
    recommends
        n < 16,
{
    if n < 10 {
        (48 + n) as u8 as char
    } else {
        (87 + n) as u8 as char
    }
}

/// The hexadecimal digits of a number, most significant first, with no
/// leading zeros except for zero itself.
pub open spec fn hex_digits(n: u64) -> Seq<char>
    decreases n,
{
    if n < 16 {
        seq![hex_digit(n)]
    } else {
        hex_digits(n / 16).push(hex_digit(n % 16))
    }
}

fn hex_digit_x(n: u64) -> (c: char)
    requires
        n < 16,
    ensures
        c == hex_digit(n),
{
    let b: u8 = if n < 10 {
        48 + n as u8
    } else {
        87 + n as u8
    };
    b as char
}

fn hex_string(n: u64) -> (s: String)
    ensures
        s@ == hex_digits(n),
    decreases n,
{
    if n < 16 {
        let mut s = String::new();
        s.push(hex_digit_x(n));
        proof {
            assert(s@ =~= seq![hex_digit(n)]);
        }
        s
    } else {
        let mut s = hex_string(n / 16);
        s.push(hex_digit_x(n % 16));
        s
    }
}

/// The address's text form: its hexadecimal digits after a `0x` prefix.
pub fn to_string(a: u64) -> (s: String)
    ensures
        s@ == seq!['0', 'x'] + hex_digits(a),
{
    let mut s = String::new();
    s.push('0');
    s.push('x');
    let digits = hex_string(a);
    let dref = digits.as_str();
    let n = dref.unicode_len();
    let mut i: usize = 0;
    while i < n
        invariant
            dref@ == hex_digits(a),
            n == dref@.len(),
            i <= n,
            s@ == seq!['0', 'x'] + dref@.subrange(0, i as int),
        decreases n - i,
    {
        s.push(dref.get_char(i));
        i += 1;
        proof {
            assert(s@ =~= seq!['0', 'x'] + dref@.subrange(0, i as int));
        }
    }
    proof {
        assert(dref@.subrange(0, n as int) =~= dref@);
    }
    s
}

/// Construct an address from a signed number: the address is the number's
/// unsigned magnitude.
pub fn addr(num: i64) -> (a: u64)
    ensures
        a == mag(num),
{
    if num >= 0 {
        num as u64
    } else if num == i64::MIN {
        0x8000_0000_0000_0000u64
    } else {
        (-num) as u64
    }
}

/// Whether two addresses are equal.
pub fn eq(a: u64, a2: u64) -> (r: bool)
    ensures
        r == (a == a2),
{
    a == a2
}

/// Whether an address equals the unsigned magnitude of `num`.
pub fn eq_num(a: u64, num: i64) -> (r: bool)
    ensures
        r == (a == mag(num)),
{
    a == addr(num)
}

/// An address offset from `a` by the unsigned magnitude of `offset`;
/// a negative offset moves forward by its magnitude, and the sum wraps
/// around the address space.
pub fn add_num(a: u64, offset: i64) -> (r: u64)
    ensures
        r == wrap_add(a, mag(offset)),
{
    a.wrapping_add(addr(offset))
}

} // verus!
