use vstd::prelude::*;

verus! {

/// One manifest record: an asset name and the five placement values that
/// the output carries for it.
pub struct ManifestEntry {
    pub name: Vec<u8>,
    pub x: u32,
    pub y: u32,
    pub width: u32,
    pub height: u32,
    pub layer: u32,
}

/// The mapping from asset name to placement record, in insertion order.
/// Re-recording an existing name overwrites its record in place: the last
/// write wins.
pub struct Manifest {
    pub entries: Vec<ManifestEntry>,
}

/// The entries after recording `e`: the entry with the same name is
/// overwritten if one exists, otherwise `e` is appended.
pub open spec fn record_spec(s: Seq<ManifestEntry>, e: ManifestEntry) -> Seq<ManifestEntry> {
    if exists|i: int| 0 <= i < s.len() && (#[trigger] s[i]).name@ == e.name@ {
        s.update(choose|i: int| 0 <= i < s.len() && (#[trigger] s[i]).name@ == e.name@, e)
    } else {
        s.push(e)
    }
}

/// What one entry carries, with the name as its byte sequence.
pub open spec fn entry_view(e: ManifestEntry) -> (Seq<u8>, u32, u32, u32, u32, u32) {
    (e.name@, e.x, e.y, e.width, e.height, e.layer)
}

/// `record_spec`, stated over entry views.
pub open spec fn record_view(
    s: Seq<(Seq<u8>, u32, u32, u32, u32, u32)>,
    e: (Seq<u8>, u32, u32, u32, u32, u32),
) -> Seq<(Seq<u8>, u32, u32, u32, u32, u32)> {
    if exists|i: int| 0 <= i < s.len() && (#[trigger] s[i]).0 == e.0 {
        s.update(choose|i: int| 0 <= i < s.len() && (#[trigger] s[i]).0 == e.0, e)
    } else {
        s.push(e)
    }
}

/// Recording commutes with taking entry views, as long as names are unique.
pub proof fn lemma_record_spec_view(s: Seq<ManifestEntry>, e: ManifestEntry)
    requires
        forall|i: int, j: int|
            0 <= i < j < s.len() ==> (#[trigger] s[i]).name@ != (#[trigger] s[j]).name@,
    ensures
        record_spec(s, e).map_values(|x: ManifestEntry| entry_view(x)) == record_view(
            s.map_values(|x: ManifestEntry| entry_view(x)),
            entry_view(e),
        ),
{
    let f = |x: ManifestEntry| entry_view(x);
    let sv = s.map_values(f);
    assert(sv.len() == s.len());
    if exists|i: int| 0 <= i < s.len() && (#[trigger] s[i]).name@ == e.name@ {
        let i1 = choose|i: int| 0 <= i < s.len() && (#[trigger] s[i]).name@ == e.name@;
        assert(sv[i1].0 == entry_view(e).0);
        let i2 = choose|i: int| 0 <= i < sv.len() && (#[trigger] sv[i]).0 == entry_view(e).0;
        assert(s[i2].name@ == e.name@);
        assert(i1 == i2);
        assert(record_spec(s, e) == s.update(i1, e));
        assert(record_view(sv, entry_view(e)) == sv.update(i2, entry_view(e)));
        assert(s.update(i1, e).map_values(f) =~= sv.update(i1, entry_view(e)));
    } else {
        assert forall|i: int| 0 <= i < sv.len() implies (#[trigger] sv[i]).0 != entry_view(e).0 by {
            assert(sv[i] == entry_view(s[i]));
        }
        assert(record_spec(s, e) == s.push(e));
        assert(record_view(sv, entry_view(e)) == sv.push(entry_view(e)));
        assert(s.push(e).map_values(f) =~= sv.push(entry_view(e)));
    }
}

impl Manifest {
    /// Names are unique: each asset has at most one record.
    pub open spec fn wf(self) -> bool {
        forall|i: int, j: int|
            0 <= i < j < self.entries@.len() ==> (#[trigger] self.entries@[i]).name@ != (
            #[trigger] self.entries@[j]).name@
    }

    /// Some entry carries this name.
    pub open spec fn contains_name(self, n: Seq<u8>) -> bool {
        exists|i: int| 0 <= i < self.entries@.len() && (#[trigger] self.entries@[i]).name@ == n
    }

    /// An empty manifest.
    pub fn new() -> (m: Manifest)
        ensures
            m.entries@ == Seq::<ManifestEntry>::empty(),
            m.wf(),
    {
        Manifest { entries: Vec::new() }
    }

    /// Record one placed asset. If the name was recorded before, its record
    /// is overwritten in place; otherwise the record is appended.
    pub fn record(&mut self, name: Vec<u8>, x: u32, y: u32, width: u32, height: u32, layer: u32)
        requires
            old(self).wf(),
        ensures
            final(self).wf(),
            final(self).entries@ == record_spec(
                old(self).entries@,
                (ManifestEntry { name, x, y, width, height, layer }),
            ),
    {
        let n = self.entries.len();
        let mut i: usize = 0;
        while i < n
            invariant
                n == self.entries@.len(),
                i <= n,
                old(self).wf(),
                self == old(self),
                forall|k: int| 0 <= k < i ==> (#[trigger] self.entries@[k]).name@ != name@,
            decreases n - i,
        {
            if bytes_eq(&self.entries[i].name, &name) {
                let ghost s0 = self.entries@;
                let ghost e = (ManifestEntry { name: name, x, y, width, height, layer });
                proof {
                    assert(s0[i as int].name@ == name@);
                }
                self.entries.set(i, ManifestEntry { name, x, y, width, height, layer });
                proof {
                    let w = choose|k: int| 0 <= k < s0.len() && (#[trigger] s0[k]).name@ == e.name@;
                    assert(w == i as int);
                    assert(self.entries@ == record_spec(s0, e));
                }
                return ;
            }
            i = i + 1;
        }
        let ghost s0 = self.entries@;
        let ghost e = (ManifestEntry { name: name, x, y, width, height, layer });
        proof {
            assert(!(exists|k: int| 0 <= k < s0.len() && (#[trigger] s0[k]).name@ == e.name@));
        }
        self.entries.push(ManifestEntry { name, x, y, width, height, layer });
        proof {
            assert(self.entries@ == record_spec(s0, e));
            assert forall|i2: int, j2: int| 0 <= i2 < j2 < self.entries@.len() implies (
            #[trigger] self.entries@[i2]).name@ != (#[trigger] self.entries@[j2]).name@ by {
                if j2 == self.entries@.len() - 1 {
                    assert(self.entries@[i2] == s0[i2]);
                }
            }
        }
    }
}

/// The decimal digits of `n`, most significant first.
pub open spec fn dec_digits(n: nat) -> Seq<u8>
    decreases n,
{
    if n < 10 {
        seq![(48 + n) as u8]
    } else {
        dec_digits(n / 10).push((48 + n % 10) as u8)
    }
}

/// The lower-case hexadecimal digit for `n < 16`.
pub open spec fn hex_digit(n: nat) -> u8 {
    if n < 10 {
        (48 + n) as u8
    } else {
        (87 + n) as u8
    }
}

/// One name byte as it appears inside a JSON string: quote and backslash are
/// escaped, control bytes become `\u00..`, everything else passes through.
pub open spec fn escaped_byte(b: u8) -> Seq<u8> {
    if b == 34 {
        seq![92u8, 34u8]
    } else if b == 92 {
        seq![92u8, 92u8]
    } else if b < 32 {
        seq![92u8, 117u8, 48u8, 48u8, hex_digit((b / 16) as nat), hex_digit((b % 16) as nat)]
    } else {
        seq![b]
    }
}

/// A name, escaped byte by byte.
pub open spec fn escaped(s: Seq<u8>) -> Seq<u8>
    decreases s.len(),
{
    if s.len() == 0 {
        Seq::empty()
    } else {
        escaped(s.drop_last()) + escaped_byte(s.last())
    }
}

/// One manifest record as JSON: the quoted, escaped name, a colon, and the
/// five placement values as a bracketed list.
pub open spec fn entry_json(e: ManifestEntry) -> Seq<u8> {
    seq![34u8] + escaped(e.name@) + seq![34u8, 58u8, 91u8] + dec_digits(e.x as nat) + seq![44u8]
        + dec_digits(e.y as nat) + seq![44u8] + dec_digits(e.width as nat) + seq![44u8]
        + dec_digits(e.height as nat) + seq![44u8] + dec_digits(e.layer as nat) + seq![93u8]
}

/// The records, comma separated, in manifest order.
pub open spec fn entries_json(s: Seq<ManifestEntry>) -> Seq<u8>
    decreases s.len(),
{
    if s.len() == 0 {
        Seq::empty()
    } else if s.len() == 1 {
        entry_json(s[0])
    } else {
        entries_json(s.drop_last()) + seq![44u8] + entry_json(s.last())
    }
}

/// The whole manifest as one JSON object keyed by asset name.
pub open spec fn manifest_json(s: Seq<ManifestEntry>) -> Seq<u8> {
    seq![123u8] + entries_json(s) + seq![125u8]
}

/// The lower-case hexadecimal digit for `n < 16`.
fn hex_digit_exec(n: u8) -> (r: u8)
    requires
        n < 16,
    ensures
        r == hex_digit(n as nat),
{
    if n < 10 {
        48 + n
    } else {
        87 + n
    }
}

/// Append the decimal digits of `n`.
fn push_dec(out: &mut Vec<u8>, n: u32)
    ensures
        final(out)@ == old(out)@ + dec_digits(n as nat),
    decreases n,
{
    if n < 10 {
        out.push(48 + (n as u8));
        proof {
            assert(out@ =~= old(out)@ + dec_digits(n as nat));
        }
    } else {
        push_dec(out, n / 10);
        out.push(48 + ((n % 10) as u8));
        proof {
            assert(out@ =~= old(out)@ + dec_digits(n as nat));
        }
    }
}

/// Append the escaped form of a name.
fn push_escaped(out: &mut Vec<u8>, s: &Vec<u8>)
    ensures
        final(out)@ == old(out)@ + escaped(s@),
{
    let n = s.len();
    let mut i: usize = 0;
    while i < n
        invariant
            n == s@.len(),
            i <= n,
            out@ == old(out)@ + escaped(s@.take(i as int)),
        decreases n - i,
    {
        let b = s[i];
        if b == 34 {
            out.push(92);
            out.push(34);
        } else if b == 92 {
            out.push(92);
            out.push(92);
        } else if b < 32 {
            out.push(92);
            out.push(117);
            out.push(48);
            out.push(48);
            out.push(hex_digit_exec(b / 16));
            out.push(hex_digit_exec(b % 16));
        } else {
            out.push(b);
        }
        proof {
            assert(s@.take(i as int + 1).drop_last() =~= s@.take(i as int));
            assert(s@.take(i as int + 1).last() == s@[i as int]);
            assert(out@ =~= old(out)@ + escaped(s@.take(i as int + 1)));
        }
        i = i + 1;
    }
    proof {
        assert(s@.take(n as int) =~= s@);
    }
}

/// Append one record's JSON form.
fn push_entry(out: &mut Vec<u8>, e: &ManifestEntry)
    ensures
        final(out)@ == old(out)@ + entry_json(*e),
{
    out.push(34);
    push_escaped(out, &e.name);
    out.push(34);
    out.push(58);
    out.push(91);
    push_dec(out, e.x);
    out.push(44);
    push_dec(out, e.y);
    out.push(44);
    push_dec(out, e.width);
    out.push(44);
    push_dec(out, e.height);
    out.push(44);
    push_dec(out, e.layer);
    out.push(93);
    proof {
        assert(out@ =~= old(out)@ + entry_json(*e));
    }
}

impl Manifest {
    /// Serialize the manifest: one JSON object, each entry `"name":[x, y,
    /// width, height, layer]` in manifest order, with no added whitespace.
    pub fn to_json(&self) -> (r: Vec<u8>)
        ensures
            r@ == manifest_json(self.entries@),
    {
        let mut out: Vec<u8> = Vec::new();
        out.push(123);
        let n = self.entries.len();
        let mut i: usize = 0;
        while i < n
            invariant
                n == self.entries@.len(),
                i <= n,
                out@ == seq![123u8] + entries_json(self.entries@.take(i as int)),
            decreases n - i,
        {
            if i > 0 {
                out.push(44);
            }
            push_entry(&mut out, &self.entries[i]);
            proof {
                assert(self.entries@.take(i as int + 1).drop_last() =~= self.entries@.take(
                    i as int,
                ));
                assert(self.entries@.take(i as int + 1).last() == self.entries@[i as int]);
                assert(out@ =~= seq![123u8] + entries_json(self.entries@.take(i as int + 1)));
            }
            i = i + 1;
        }
        out.push(125);
        proof {
            assert(self.entries@.take(n as int) =~= self.entries@);
            assert(out@ =~= manifest_json(self.entries@));
        }
        out
    }
}

/// Byte-for-byte equality of two byte strings.
fn bytes_eq(a: &Vec<u8>, b: &Vec<u8>) -> (r: bool)
    ensures
        r <==> a@ == b@,
{
    if a.len() != b.len() {
        return false;
    }
    let n = a.len();
    let mut i: usize = 0;
    while i < n
        invariant
            n == a@.len(),
            n == b@.len(),
            i <= n,
            forall|k: int| 0 <= k < i ==> a@[k] == b@[k],
        decreases n - i,
    {
        if a[i] != b[i] {
            return false;
        }
        i = i + 1;
    }
    proof {
        assert(a@ =~= b@);
    }
    true
}

/// Copy a byte string.
pub fn clone_bytes(v: &Vec<u8>) -> (r: Vec<u8>)
    ensures
        r@ == v@,
{
    let mut r: Vec<u8> = Vec::new();
    let n = v.len();
    let mut i: usize = 0;
    while i < n
        invariant
            n == v@.len(),
            i <= n,
            r@ == v@.take(i as int),
        decreases n - i,
    {
        r.push(v[i]);
        proof {
            assert(r@ =~= v@.take(i as int + 1));
        }
        i = i + 1;
    }
    proof {
        assert(v@.take(n as int) =~= v@);
    }
    r
}

} // verus!
