//! Frame schema model: presets, decode / encode block lists, port derivation
//! and frame assembly from encode blocks.

use vstd::prelude::*;

use crate::checksum::{lemma_verify_accepts_computed, ChecksumAlgorithm};
use crate::decoder_block::{DecoderBlockDef, FieldType};
use crate::hex::{parse_hex, parse_hex_spec};
use crate::protocol_config::ProtocolConfig;

verus! {

/// Schema preset: every built-in protocol kind is a preset of the schema model.
#[derive(Debug, Clone, Copy, PartialEq, Eq, Structural)]
pub enum SchemaPreset {
    JustFloat,
    FireWater,
    RawData,
    Slcan,
    CandleLight,
    LogicDecode,
    /// User-defined blocks.
    Custom,
}

/// Protocol frame schema shared by decoding and encoding.
#[derive(Debug, Clone, PartialEq, Eq)]
pub struct ProtocolSchema {
    pub preset: SchemaPreset,
    /// Engine configuration of a preset (`None` for `Custom`).
    pub legacy_config: Option<ProtocolConfig>,
    /// Decode-direction blocks.
    pub decode: Vec<DecoderBlockDef>,
    /// Encode-direction blocks (`None`: presets encode the legacy way).
    pub encode: Option<Vec<EncodeBlockDef>>,
}

/// Encode block of a command frame.
#[derive(Debug, Clone, PartialEq, Eq)]
pub enum EncodeBlockDef {
    /// Fixed bytes written as HEX text such as "AA BB".
    ConstHex { hex: String },
    /// Runtime value of a port, encoded by `field_type`.
    VarRef { port_name: String, field_type: FieldType },
    /// Literal decimal / float constant, encoded by `field_type`.
    TypedConst { value: String, field_type: FieldType },
    /// Checksum over all bytes assembled so far, appended to them.
    Checksum { algorithm: ChecksumAlgorithm, custom_script: Option<String> },
}

/// Test-data link configuration: the legacy protocol plus an optional schema.
#[derive(Debug, Clone)]
pub struct TestDataLink {
    pub protocol: ProtocolConfig,
    pub schema: Option<ProtocolSchema>,
}

// ---------------------------------------------------------------------------
// Port derivation
// ---------------------------------------------------------------------------

/// The character views of a list of names.
pub open spec fn names_of(v: Seq<String>) -> Seq<Seq<char>> {
    v.map_values(|s: String| s@)
}

/// Port names a decode block declares, in order (Field / Bitfield /
/// AsciiField: their port; Csv: its column ports; others: none).
pub open spec fn declared_ports(b: DecoderBlockDef) -> Seq<Seq<char>> {
    match b {
        DecoderBlockDef::Field { port_name, .. } => seq![port_name@],
        DecoderBlockDef::Bitfield { port_name, .. } => seq![port_name@],
        DecoderBlockDef::AsciiField { port_name, .. } => seq![port_name@],
        DecoderBlockDef::Csv { ports, .. } => names_of(ports@),
        _ => Seq::empty(),
    }
}

/// Appends each of `names` to `acc` unless it is already present.
pub open spec fn push_new(acc: Seq<Seq<char>>, names: Seq<Seq<char>>) -> Seq<Seq<char>>
    decreases names.len(),
{
    if names.len() == 0 {
        acc
    } else {
        let next = if acc.contains(names[0]) {
            acc
        } else {
            acc.push(names[0])
        };
        push_new(next, names.skip(1))
    }
}

/// Ports of a block list: declared ports in block order, first occurrence kept.
pub open spec fn ports_of_blocks(blocks: Seq<DecoderBlockDef>) -> Seq<Seq<char>>
    decreases blocks.len(),
{
    if blocks.len() == 0 {
        Seq::empty()
    } else {
        push_new(ports_of_blocks(blocks.drop_last()), declared_ports(blocks.last()))
    }
}

proof fn lemma_push_new(acc: Seq<Seq<char>>, names: Seq<Seq<char>>)
    requires
        acc.no_duplicates(),
    ensures
        push_new(acc, names).no_duplicates(),
        forall|x: Seq<char>|
            push_new(acc, names).contains(x) <==> (acc.contains(x) || names.contains(x)),
        acc.is_prefix_of(push_new(acc, names)),
    decreases names.len(),
{
    if names.len() > 0 {
        let next = if acc.contains(names[0]) {
            acc
        } else {
            acc.push(names[0])
        };
        if !acc.contains(names[0]) {
            assert forall|i: int, j: int| 0 <= i < j < next.len() implies next[i] != next[j] by {
                if j == acc.len() {
                    assert(acc[i] == next[i]);
                }
            }
        }
        lemma_push_new(next, names.skip(1));
        assert forall|x: Seq<char>| names.contains(x) implies (next.contains(x) || names.skip(1).contains(x)) by {
            let k = choose|k: int| 0 <= k < names.len() && names[k] == x;
            if k == 0 {
                if !acc.contains(names[0]) {
                    assert(next[acc.len() as int] == x);
                }
            } else {
                assert(names.skip(1)[k - 1] == x);
            }
        }
        assert forall|x: Seq<char>| names.skip(1).contains(x) implies names.contains(x) by {
            let k = choose|k: int| 0 <= k < names.skip(1).len() && names.skip(1)[k] == x;
            assert(names[k + 1] == x);
        }
        assert forall|x: Seq<char>| next.contains(x) implies (acc.contains(x) || names.contains(x)) by {
            if !acc.contains(x) {
                assert(x == names[0]);
            }
        }
        assert forall|x: Seq<char>| acc.contains(x) implies next.contains(x) by {
            let k = choose|k: int| 0 <= k < acc.len() && acc[k] == x;
            assert(next[k] == x);
        }
        assert(acc.is_prefix_of(next));
    }
}

proof fn lemma_ports_of_blocks(blocks: Seq<DecoderBlockDef>)
    ensures
        ports_of_blocks(blocks).no_duplicates(),
        forall|x: Seq<char>|
            ports_of_blocks(blocks).contains(x) <==> exists|i: int|
                0 <= i < blocks.len() && #[trigger] declared_ports(blocks[i]).contains(x),
    decreases blocks.len(),
{
    if blocks.len() > 0 {
        let init = blocks.drop_last();
        lemma_ports_of_blocks(init);
        lemma_push_new(ports_of_blocks(init), declared_ports(blocks.last()));
        assert forall|x: Seq<char>|
            ports_of_blocks(blocks).contains(x) <==> exists|i: int|
                0 <= i < blocks.len() && #[trigger] declared_ports(blocks[i]).contains(x) by {
            if ports_of_blocks(blocks).contains(x) {
                if ports_of_blocks(init).contains(x) {
                    let i = choose|i: int|
                        0 <= i < init.len() && #[trigger] declared_ports(init[i]).contains(x);
                    assert(blocks[i] == init[i]);
                } else {
                    assert(declared_ports(blocks[blocks.len() - 1]).contains(x));
                }
            }
            if exists|i: int| 0 <= i < blocks.len() && #[trigger] declared_ports(blocks[i]).contains(x) {
                let i = choose|i: int|
                    0 <= i < blocks.len() && #[trigger] declared_ports(blocks[i]).contains(x);
                if i < blocks.len() - 1 {
                    assert(init[i] == blocks[i]);
                    assert(ports_of_blocks(init).contains(x));
                }
            }
        }
    }
}

/// Derived port names never repeat.
pub proof fn lemma_port_names_unique(schema: ProtocolSchema)
    ensures
        ports_of_blocks(schema.decode@).no_duplicates(),
{
    lemma_ports_of_blocks(schema.decode@);
}

/// A name is a derived port exactly when some decode block declares it.
pub proof fn lemma_port_names_complete(schema: ProtocolSchema, name: Seq<char>)
    ensures
        ports_of_blocks(schema.decode@).contains(name) <==> exists|i: int|
            0 <= i < schema.decode@.len() && #[trigger] declared_ports(schema.decode@[i]).contains(
                name,
            ),
{
    lemma_ports_of_blocks(schema.decode@);
}

/// Whether `name` is among `v`.
fn contains_name(v: &Vec<String>, name: &String) -> (r: bool)
    ensures
        r == names_of(v@).contains(name@),
{
    let mut i: usize = 0;
    while i < v.len()
        invariant
            i <= v.len(),
            forall|k: int| 0 <= k < i ==> v@[k]@ != name@,
        decreases v.len() - i,
    {
        if v[i] == *name {
            assert(names_of(v@)[i as int] == name@);
            return true;
        }
        i = i + 1;
    }
    assert forall|k: int| 0 <= k < names_of(v@).len() implies names_of(v@)[k] != name@ by {
        assert(names_of(v@)[k] == v@[k]@);
    }
    false
}

/// Appends `name` to `ports` unless it is already there.
fn push_if_new(ports: &mut Vec<String>, name: &String)
    ensures
        names_of(final(ports)@) == (if names_of(old(ports)@).contains(name@) {
            names_of(old(ports)@)
        } else {
            names_of(old(ports)@).push(name@)
        }),
{
    if !contains_name(ports, name) {
        ports.push(name.clone());
        assert(names_of(ports@) =~= names_of(old(ports)@).push(name@));
    }
}

impl ProtocolSchema {
    /// Port list derived from the decode blocks: Field / Bitfield / AsciiField
    /// ports and Csv columns, in block order, each name once (first occurrence).
    pub fn port_names(&self) -> (r: Vec<String>)
        ensures
            names_of(r@) == ports_of_blocks(self.decode@),
    {
        let mut ports: Vec<String> = Vec::new();
        let mut i: usize = 0;
        assert(self.decode@.take(0) =~= Seq::<DecoderBlockDef>::empty());
        assert(names_of(ports@) =~= Seq::<Seq<char>>::empty());
        while i < self.decode.len()
            invariant
                i <= self.decode.len(),
                names_of(ports@) == ports_of_blocks(self.decode@.take(i as int)),
            decreases self.decode.len() - i,
        {
            let ghost start = names_of(ports@);
            let b = &self.decode[i];
            assert(self.decode@.take(i + 1).drop_last() =~= self.decode@.take(i as int));
            match b {
                DecoderBlockDef::Field { port_name, .. }
                | DecoderBlockDef::Bitfield { port_name, .. }
                | DecoderBlockDef::AsciiField { port_name, .. } => {
                    push_if_new(&mut ports, port_name);
                    proof {
                        let names = seq![port_name@];
                        let next = if start.contains(names[0]) {
                            start
                        } else {
                            start.push(names[0])
                        };
                        assert(names.skip(1) =~= Seq::<Seq<char>>::empty());
                        assert(push_new(next, names.skip(1)) == next);
                        assert(push_new(start, names) == names_of(ports@));
                    }
                },
                DecoderBlockDef::Csv { ports: ps, .. } => {
                    let ghost names = names_of(ps@);
                    let mut j: usize = 0;
                    assert(names.skip(0) =~= names);
                    while j < ps.len()
                        invariant
                            j <= ps.len(),
                            names == names_of(ps@),
                            push_new(names_of(ports@), names.skip(j as int)) == push_new(
                                start,
                                names,
                            ),
                        decreases ps.len() - j,
                    {
                        let ghost before = names_of(ports@);
                        assert(names.skip(j as int)[0] == ps@[j as int]@);
                        assert(names.skip(j as int).skip(1) =~= names.skip(j + 1));
                        push_if_new(&mut ports, &ps[j]);
                        j = j + 1;
                    }
                    assert(names.skip(j as int) =~= Seq::<Seq<char>>::empty());
                },
                _ => {
                    assert(push_new(start, Seq::<Seq<char>>::empty()) == start);
                },
            }
            i = i + 1;
        }
        assert(self.decode@.take(i as int) =~= self.decode@);
        ports
    }
}

impl TestDataLink {
    /// Link with the given legacy protocol and no schema.
    pub fn new(protocol: ProtocolConfig) -> (r: Self)
        ensures
            r.protocol == protocol,
            r.schema is None,
    {
        TestDataLink { protocol, schema: None }
    }
}

// ---------------------------------------------------------------------------
// Frame assembly from encode blocks
// ---------------------------------------------------------------------------

/// Index of the first port named `name`.
pub fn port_index(ports: &[String], name: &String) -> (r: Option<usize>)
    ensures
        match r {
            Some(i) => i < ports@.len() && ports@[i as int]@ == name@ && forall|k: int|
                0 <= k < i ==> ports@[k]@ != name@,
            None => forall|k: int| 0 <= k < ports@.len() ==> ports@[k]@ != name@,
        },
{
    let mut i: usize = 0;
    while i < ports.len()
        invariant
            i <= ports@.len(),
            forall|k: int| 0 <= k < i ==> ports@[k]@ != name@,
        decreases ports.len() - i,
    {
        if ports[i] == *name {
            return Some(i);
        }
        i = i + 1;
    }
    None
}

/// The frame produced by the first `n` encode blocks, where `fields[i]` holds
/// the already encoded value bytes of value block `i` (VarRef / TypedConst).
pub open spec fn assembled(blocks: Seq<EncodeBlockDef>, fields: Seq<Seq<u8>>, n: nat) -> Seq<u8>
    decreases n,
{
    if n == 0 {
        Seq::empty()
    } else {
        let prev = assembled(blocks, fields, (n - 1) as nat);
        match blocks[n - 1] {
            EncodeBlockDef::ConstHex { hex } => prev + parse_hex_spec(hex@),
            EncodeBlockDef::VarRef { .. } => prev + fields[n - 1],
            EncodeBlockDef::TypedConst { .. } => prev + fields[n - 1],
            EncodeBlockDef::Checksum { algorithm, .. } => prev + algorithm.checksum_of(prev),
        }
    }
}

/// Each block only appends to the frame, and a checksum block appends the
/// checksum of every byte assembled before it, which that algorithm's check
/// accepts.
pub proof fn lemma_assembled_checksums(blocks: Seq<EncodeBlockDef>, fields: Seq<Seq<u8>>, n: nat)
    requires
        0 < n <= blocks.len(),
    ensures
        assembled(blocks, fields, n).subrange(0, assembled(blocks, fields, (n - 1) as nat).len() as int)
            == assembled(blocks, fields, (n - 1) as nat),
        blocks[n - 1] matches EncodeBlockDef::Checksum { algorithm, .. } ==> {
            let prev = assembled(blocks, fields, (n - 1) as nat);
            let cur = assembled(blocks, fields, n);
            &&& cur.skip(prev.len() as int) == algorithm.checksum_of(prev)
            &&& algorithm.accepts(prev, cur.skip(prev.len() as int))
        },
{
    let prev = assembled(blocks, fields, (n - 1) as nat);
    let cur = assembled(blocks, fields, n);
    match blocks[n - 1] {
        EncodeBlockDef::ConstHex { hex } => {
            assert(cur.subrange(0, prev.len() as int) =~= prev);
        },
        EncodeBlockDef::VarRef { .. } => {
            assert(cur.subrange(0, prev.len() as int) =~= prev);
        },
        EncodeBlockDef::TypedConst { .. } => {
            assert(cur.subrange(0, prev.len() as int) =~= prev);
        },
        EncodeBlockDef::Checksum { algorithm, .. } => {
            assert(cur.subrange(0, prev.len() as int) =~= prev);
            assert(cur.skip(prev.len() as int) =~= algorithm.checksum_of(prev));
            lemma_verify_accepts_computed(algorithm, prev, prev);
        },
    }
}

/// The byte views of a list of encoded fields.
pub open spec fn bytes_of(v: Seq<Vec<u8>>) -> Seq<Seq<u8>> {
    v.map_values(|b: Vec<u8>| b@)
}

/// Assembles a frame from encode blocks: ConstHex bytes, the given encoded
/// value bytes for VarRef / TypedConst blocks (`fields[i]` for block `i`),
/// and checksums over everything assembled before them.
pub fn assemble_frame(encode: &[EncodeBlockDef], fields: &[Vec<u8>]) -> (r: Vec<u8>)
    requires
        fields@.len() == encode@.len(),
    ensures
        r@ == assembled(encode@, bytes_of(fields@), encode@.len() as nat),
{
    let ghost fv = bytes_of(fields@);
    let mut out: Vec<u8> = Vec::new();
    let mut i: usize = 0;
    while i < encode.len()
        invariant
            i <= encode@.len(),
            fields@.len() == encode@.len(),
            fv == bytes_of(fields@),
            out@ == assembled(encode@, fv, i as nat),
        decreases encode.len() - i,
    {
        let ghost prev = out@;
        match &encode[i] {
            EncodeBlockDef::ConstHex { hex } => {
                let bytes = parse_hex(hex.as_str());
                out.extend_from_slice(bytes.as_slice());
            },
            EncodeBlockDef::VarRef { .. } | EncodeBlockDef::TypedConst { .. } => {
                assert(fv[i as int] == fields@[i as int]@);
                out.extend_from_slice(fields[i].as_slice());
            },
            EncodeBlockDef::Checksum { algorithm, custom_script } => {
                let script: Option<&str> = match custom_script {
                    Some(s) => Some(s.as_str()),
                    None => None,
                };
                let cs = algorithm.compute(out.as_slice(), script);
                out.extend_from_slice(cs.as_slice());
            },
        }
        i = i + 1;
    }
    out
}

} // verus!
