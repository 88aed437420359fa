//! The values that contract calls leave on chain, as a closed set of tagged
//! shapes, and their consensus serialization.
//!
//! The bounded parts of a value (names, byte strings, lists, tuples) keep
//! their bounds as type invariants, so that every value that can be built
//! can also be serialized: each length fits the width that the format gives
//! it.

use crate::hash::bytes_eq;
use vstd::prelude::*;
use vstd::slice::slice_to_vec;
use vstd::string::StringSliceAdditionalSpecFns;

verus! {

/// Most bytes in a byte string, items in a list, or fields in a tuple.
pub const MAX_VALUE_SIZE: usize = 1_048_576;

/// Most bytes in a name.
pub const MAX_NAME_LEN: usize = 128;

/// The `width` low-order base-256 digits of `x`, most significant first.
pub open spec fn spec_be_bytes(x: nat, width: nat) -> Seq<u8>
    decreases width,
{
    if width == 0 {
        Seq::empty()
    } else {
        spec_be_bytes(x / 256, (width - 1) as nat).push((x % 256) as u8)
    }
}

/// Appends `data` to `out`.
pub fn push_all(out: &mut Vec<u8>, data: &[u8])
    ensures
        final(out)@ == old(out)@ + data@,
{
    let ghost before = out@;
    let mut i: usize = 0;
    while i < data.len()
        invariant
            i <= data.len(),
            out@ == before + data@.subrange(0, i as int),
        decreases data.len() - i,
    {
        out.push(data[i]);
        i += 1;
        assert(out@ =~= before + data@.subrange(0, i as int));
    }
    assert(data@.subrange(0, i as int) =~= data@);
}

/// Appends the `width` low-order bytes of `x` to `out`, most significant
/// first.
pub fn push_be_bytes(out: &mut Vec<u8>, x: u128, width: usize)
    requires
        width <= 16,
    ensures
        final(out)@ == old(out)@ + spec_be_bytes(x as nat, width as nat),
{
    let ghost before = out@;
    let ghost digits = spec_be_bytes(x as nat, width as nat);
    let mut buf = [0u8; 16];
    let mut rest: u128 = x;
    let mut k: usize = width;
    while k > 0
        invariant
            k <= width <= 16,
            digits == spec_be_bytes(rest as nat, k as nat) + buf@.subrange(k as int, width as int),
        decreases k,
    {
        let ghost prev_buf = buf@;
        let ghost prev_rest = rest;
        k -= 1;
        buf[k] = (rest % 256) as u8;
        rest = rest / 256;
        assert(spec_be_bytes(prev_rest as nat, (k + 1) as nat) == spec_be_bytes(
            rest as nat,
            k as nat,
        ).push((prev_rest % 256) as u8));
        assert(buf@.subrange(k as int, width as int) =~= seq![(prev_rest % 256) as u8]
            + prev_buf.subrange(k + 1, width as int));
        assert(digits =~= spec_be_bytes(rest as nat, k as nat) + buf@.subrange(
            k as int,
            width as int,
        ));
    }
    assert(digits =~= buf@.subrange(0, width as int));
    let mut i: usize = 0;
    while i < width
        invariant
            i <= width <= 16,
            out@ == before + buf@.subrange(0, i as int),
        decreases width - i,
    {
        out.push(buf[i]);
        i += 1;
        assert(out@ =~= before + buf@.subrange(0, i as int));
    }
}

/// The order of names: byte by byte, a proper prefix before the longer name.
pub open spec fn spec_name_lt(a: Seq<u8>, b: Seq<u8>) -> bool
    decreases a.len(),
{
    if b.len() == 0 {
        false
    } else if a.len() == 0 {
        true
    } else if a[0] != b[0] {
        a[0] < b[0]
    } else {
        spec_name_lt(a.drop_first(), b.drop_first())
    }
}

/// Of two different names, one comes before the other.
pub proof fn lemma_name_order_total(a: Seq<u8>, b: Seq<u8>)
    ensures
        spec_name_lt(a, b) || a == b || spec_name_lt(b, a),
    decreases a.len(),
{
    if a.len() == 0 || b.len() == 0 {
        if a.len() == 0 && b.len() == 0 {
            assert(a =~= b);
        }
    } else if a[0] == b[0] {
        lemma_name_order_total(a.drop_first(), b.drop_first());
        if a.drop_first() == b.drop_first() {
            assert(a =~= seq![a[0]] + a.drop_first());
            assert(b =~= seq![b[0]] + b.drop_first());
        }
    }
}

/// The order of names is transitive.
pub proof fn lemma_name_order_transitive(a: Seq<u8>, b: Seq<u8>, c: Seq<u8>)
    requires
        spec_name_lt(a, b),
        spec_name_lt(b, c),
    ensures
        spec_name_lt(a, c),
    decreases a.len(),
{
    if a.len() > 0 && a[0] == b[0] && b[0] == c[0] {
        lemma_name_order_transitive(a.drop_first(), b.drop_first(), c.drop_first());
    }
}

/// Whether `a` comes before `b` in the order of names.
pub fn name_lt(a: &[u8], b: &[u8]) -> (before: bool)
    ensures
        before == spec_name_lt(a@, b@),
{
    let mut i: usize = 0;
    assert(a@.skip(0) =~= a@ && b@.skip(0) =~= b@);
    while i < a.len() && i < b.len()
        invariant
            i <= a.len(),
            i <= b.len(),
            spec_name_lt(a@, b@) == spec_name_lt(a@.skip(i as int), b@.skip(i as int)),
        decreases a.len() - i,
    {
        assert(a@.skip(i as int)[0] == a@[i as int]);
        assert(b@.skip(i as int)[0] == b@[i as int]);
        if a[i] != b[i] {
            return a[i] < b[i];
        }
        assert(a@.skip(i as int).drop_first() =~= a@.skip(i + 1));
        assert(b@.skip(i as int).drop_first() =~= b@.skip(i + 1));
        i += 1;
    }
    i < b.len()
}

/// A name in the contract language: of a tuple's field, or of a contract.
/// It holds between one and `MAX_NAME_LEN` bytes.
#[derive(Debug, PartialEq, Eq, Hash)]
pub struct ClarityName {
    bytes: Vec<u8>,
}

impl View for ClarityName {
    type V = Seq<u8>;

    closed spec fn view(&self) -> Seq<u8> {
        self.bytes@
    }
}

impl Clone for ClarityName {
    fn clone(&self) -> (copy: ClarityName)
        ensures
            copy@ == self@,
    {
        proof {
            use_type_invariant(self);
        }
        ClarityName { bytes: slice_to_vec(self.bytes.as_slice()) }
    }
}

impl ClarityName {
    #[verifier::type_invariant]
    spec fn well_formed(self) -> bool {
        1 <= self.bytes@.len() <= MAX_NAME_LEN
    }

    /// The name made of `bytes`, unless it is empty or too long.
    pub fn from_bytes(bytes: &[u8]) -> (name: Option<ClarityName>)
        ensures
            name is Some <==> 1 <= bytes@.len() <= MAX_NAME_LEN,
            name is Some ==> name->0@ == bytes@,
    {
        if bytes.len() == 0 || bytes.len() > MAX_NAME_LEN {
            return None;
        }
        Some(ClarityName { bytes: slice_to_vec(bytes) })
    }

    /// The name spelled by `text`, unless it is empty or too long.
    pub fn from_str(text: &str) -> (name: Option<ClarityName>)
        ensures
            name is Some <==> 1 <= text.spec_bytes().len() <= MAX_NAME_LEN,
            name is Some ==> name->0@ == text.spec_bytes(),
    {
        ClarityName::from_bytes(text.as_bytes())
    }

    /// The bytes of the name.
    pub fn as_bytes(&self) -> (bytes: &[u8])
        ensures
            bytes@ == self@,
            1 <= bytes@.len() <= MAX_NAME_LEN,
    {
        proof {
            use_type_invariant(self);
        }
        self.bytes.as_slice()
    }

    /// Whether two names hold the same bytes.
    pub fn same(&self, other: &ClarityName) -> (same: bool)
        ensures
            same == (self@ == other@),
    {
        bytes_eq(self.bytes.as_slice(), other.bytes.as_slice())
    }
}

/// A byte string of at most `MAX_VALUE_SIZE` bytes: the content of a buffer,
/// or the encoded text of a string.
#[derive(Debug, PartialEq, Eq)]
pub struct BuffData {
    data: Vec<u8>,
}

impl View for BuffData {
    type V = Seq<u8>;

    closed spec fn view(&self) -> Seq<u8> {
        self.data@
    }
}

impl BuffData {
    #[verifier::type_invariant]
    spec fn well_formed(self) -> bool {
        self.data@.len() <= MAX_VALUE_SIZE
    }

    /// The byte string that holds `data`, unless it is too long.
    pub fn new(data: Vec<u8>) -> (buff: Option<BuffData>)
        ensures
            buff is Some <==> data@.len() <= MAX_VALUE_SIZE,
            buff is Some ==> buff->0@ == data@,
    {
        if data.len() > MAX_VALUE_SIZE {
            return None;
        }
        Some(BuffData { data })
    }

    /// The bytes held.
    pub fn as_bytes(&self) -> (bytes: &[u8])
        ensures
            bytes@ == self@,
            bytes@.len() <= MAX_VALUE_SIZE,
    {
        proof {
            use_type_invariant(self);
        }
        self.data.as_slice()
    }
}

/// The account behind a standard principal: a version byte and the hash of
/// a public key.
#[derive(Clone, Copy, Debug, PartialEq, Eq, Hash)]
pub struct StandardPrincipalData {
    pub version: u8,
    pub bytes: [u8; 20],
}

/// What a contract identifier is, as plain values.
pub struct ContractIdView {
    pub version: u8,
    pub issuer: Seq<u8>,
    pub name: Seq<u8>,
}

/// The fully qualified identifier of a contract: the account that published
/// it and the contract's name.
#[derive(Debug, PartialEq, Eq, Hash)]
pub struct QualifiedContractIdentifier {
    pub issuer: StandardPrincipalData,
    pub name: ClarityName,
}

impl View for QualifiedContractIdentifier {
    type V = ContractIdView;

    open spec fn view(&self) -> ContractIdView {
        ContractIdView {
            version: self.issuer.version,
            issuer: self.issuer.bytes@,
            name: self.name@,
        }
    }
}

impl Clone for QualifiedContractIdentifier {
    fn clone(&self) -> (copy: QualifiedContractIdentifier)
        ensures
            copy@ == self@,
    {
        QualifiedContractIdentifier { issuer: self.issuer, name: self.name.clone() }
    }
}

impl QualifiedContractIdentifier {
    /// Whether two identifiers name the same contract.
    pub fn same(&self, other: &QualifiedContractIdentifier) -> (same: bool)
        ensures
            same == (self@ == other@),
    {
        self.issuer.version == other.issuer.version && bytes_eq(
            self.issuer.bytes.as_slice(),
            other.issuer.bytes.as_slice(),
        ) && self.name.same(&other.name)
    }
}

/// A principal: an account, or a contract.
#[derive(Debug, PartialEq, Eq)]
pub enum PrincipalData {
    Standard(StandardPrincipalData),
    Contract(QualifiedContractIdentifier),
}

/// A sequence value.
#[derive(Debug, PartialEq, Eq)]
pub enum SequenceData {
    Buffer(BuffData),
    List(ListData),
    StringAscii(BuffData),
    StringUtf8(BuffData),
}

/// An optional value.
#[derive(Debug, PartialEq, Eq)]
pub struct OptionalData {
    pub data: Option<Box<Value>>,
}

/// A response: a value, and whether it stands for success.
#[derive(Debug, PartialEq, Eq)]
pub struct ResponseData {
    pub committed: bool,
    pub data: Box<Value>,
}

/// A value that a contract call left on chain.
#[derive(Debug, PartialEq, Eq)]
pub enum Value {
    Int(i128),
    UInt(u128),
    Bool(bool),
    Sequence(SequenceData),
    Principal(PrincipalData),
    Tuple(TupleData),
    Optional(OptionalData),
    Response(ResponseData),
}

/// A list of at most `MAX_VALUE_SIZE` values.
#[derive(Debug, PartialEq, Eq)]
pub struct ListData {
    data: Vec<Value>,
}

impl View for ListData {
    type V = Seq<Value>;

    closed spec fn view(&self) -> Seq<Value> {
        self.data@
    }
}

impl ListData {
    #[verifier::type_invariant]
    spec fn well_formed(self) -> bool {
        self.data@.len() <= MAX_VALUE_SIZE
    }

    /// The list that holds `data`, unless it is too long.
    pub fn new(data: Vec<Value>) -> (list: Option<ListData>)
        ensures
            list is Some <==> data@.len() <= MAX_VALUE_SIZE,
            list is Some ==> list->0@ == data@,
    {
        if data.len() > MAX_VALUE_SIZE {
            return None;
        }
        Some(ListData { data })
    }

    /// The items held.
    pub fn items(&self) -> (items: &Vec<Value>)
        ensures
            items@ == self@,
            items@.len() <= MAX_VALUE_SIZE,
    {
        proof {
            use_type_invariant(self);
        }
        &self.data
    }
}

/// One field of a tuple.
#[derive(Debug, PartialEq, Eq)]
pub struct TupleField {
    pub name: ClarityName,
    pub value: Value,
}

/// Whether the fields stand in the strict order of their names.
pub open spec fn spec_fields_sorted(fields: Seq<TupleField>) -> bool {
    forall|i: int, j: int|
        0 <= i < j < fields.len() ==> spec_name_lt(
            (#[trigger] fields[i]).name@,
            (#[trigger] fields[j]).name@,
        )
}

/// The index of the first field named `name`, or the number of fields if
/// there is none.
pub open spec fn spec_field_index(fields: Seq<TupleField>, name: Seq<u8>) -> int
    decreases fields.len(),
{
    if fields.len() == 0 {
        0
    } else if fields[0].name@ == name {
        0
    } else {
        1 + spec_field_index(fields.drop_first(), name)
    }
}

/// The value of the first field named `name`.
pub open spec fn spec_field_value(fields: Seq<TupleField>, name: Seq<u8>) -> Option<Value> {
    let i = spec_field_index(fields, name);
    if i < fields.len() {
        Some(fields[i].value)
    } else {
        None
    }
}

/// How many fields at the start of `fields` have a name before `name`.
pub open spec fn spec_field_rank(fields: Seq<TupleField>, name: Seq<u8>) -> int
    decreases fields.len(),
{
    if fields.len() == 0 {
        0
    } else if !spec_name_lt(fields[0].name@, name) {
        0
    } else {
        1 + spec_field_rank(fields.drop_first(), name)
    }
}

/// What `spec_field_index` returns lies within the fields or just behind
/// them; before it no field has the name, and at it the field has.
pub proof fn lemma_field_index(fields: Seq<TupleField>, name: Seq<u8>)
    ensures
        0 <= spec_field_index(fields, name) <= fields.len(),
        forall|k: int|
            0 <= k < spec_field_index(fields, name) ==> (#[trigger] fields[k]).name@ != name,
        spec_field_index(fields, name) < fields.len() ==> fields[spec_field_index(
            fields,
            name,
        )].name@ == name,
    decreases fields.len(),
{
    if fields.len() > 0 && fields[0].name@ != name {
        let rest = fields.drop_first();
        lemma_field_index(rest, name);
        assert forall|k: int| 0 <= k < spec_field_index(fields, name) implies (
        #[trigger] fields[k]).name@ != name by {
            if k > 0 {
                assert(fields[k] == rest[k - 1]);
            }
        }
        if spec_field_index(fields, name) < fields.len() {
            assert(fields[spec_field_index(fields, name)] == rest[spec_field_index(rest, name)]);
        }
    }
}

/// A tuple: named fields, no name twice, kept in the order of their names.
/// It holds at most `MAX_VALUE_SIZE` fields.
#[derive(Debug, PartialEq, Eq)]
pub struct TupleData {
    fields: Vec<TupleField>,
}

impl View for TupleData {
    type V = Seq<TupleField>;

    closed spec fn view(&self) -> Seq<TupleField> {
        self.fields@
    }
}

impl TupleData {
    #[verifier::type_invariant]
    spec fn well_formed(self) -> bool {
        &&& self.fields@.len() <= MAX_VALUE_SIZE
        &&& spec_fields_sorted(self.fields@)
    }

    /// The tuple without fields.
    pub fn new() -> (tuple: TupleData)
        ensures
            tuple@ == Seq::<TupleField>::empty(),
    {
        TupleData { fields: Vec::new() }
    }

    /// The fields, in the order of their names.
    pub fn fields(&self) -> (fields: &Vec<TupleField>)
        ensures
            fields@ == self@,
            fields@.len() <= MAX_VALUE_SIZE,
            spec_fields_sorted(fields@),
    {
        proof {
            use_type_invariant(self);
        }
        &self.fields
    }

    /// The value of the field named `name`, if the tuple has one.
    pub fn get(&self, name: &str) -> (value: Option<&Value>)
        ensures
            value is Some <==> spec_field_value(self@, name.spec_bytes()) is Some,
            value is Some ==> *value->0 == spec_field_value(self@, name.spec_bytes())->0,
    {
        let wanted = name.as_bytes();
        let mut i: usize = 0;
        proof {
            lemma_field_index(self.fields@, wanted@);
        }
        while i < self.fields.len()
            invariant
                i <= self.fields.len(),
                wanted@ == name.spec_bytes(),
                forall|k: int| 0 <= k < i ==> (#[trigger] self.fields@[k]).name@ != wanted@,
                i <= spec_field_index(self.fields@, wanted@) <= self.fields@.len(),
                forall|k: int|
                    0 <= k < spec_field_index(self.fields@, wanted@) ==> (
                    #[trigger] self.fields@[k]).name@ != wanted@,
                spec_field_index(self.fields@, wanted@) < self.fields@.len()
                    ==> self.fields@[spec_field_index(self.fields@, wanted@)].name@ == wanted@,
            decreases self.fields.len() - i,
        {
            if bytes_eq(self.fields[i].name.as_bytes(), wanted) {
                assert(self.fields@[i as int].name@ == wanted@);
                assert(spec_field_index(self.fields@, wanted@) == i);
                return Some(&self.fields[i].value);
            }
            i += 1;
        }
        None
    }

    /// The tuple with one more field. Nothing is returned where the tuple
    /// already has a field of that name, or is full.
    pub fn insert(self, name: ClarityName, value: Value) -> (tuple: Option<TupleData>)
        ensures
            tuple is Some <==> self@.len() < MAX_VALUE_SIZE && spec_field_value(self@, name@)
                is None,
            tuple is Some ==> tuple->0@ == self@.insert(
                spec_field_rank(self@, name@),
                TupleField { name, value },
            ),
    {
        proof {
            use_type_invariant(&self);
            lemma_field_index(self.fields@, name@);
        }
        if self.fields.len() >= MAX_VALUE_SIZE {
            return None;
        }
        let mut i: usize = 0;
        while i < self.fields.len()
            invariant
                i <= self.fields.len(),
                forall|k: int| 0 <= k < i ==> (#[trigger] self.fields@[k]).name@ != name@,
                i <= spec_field_index(self.fields@, name@) <= self.fields@.len(),
                forall|k: int|
                    0 <= k < spec_field_index(self.fields@, name@) ==> (
                    #[trigger] self.fields@[k]).name@ != name@,
                spec_field_index(self.fields@, name@) < self.fields@.len()
                    ==> self.fields@[spec_field_index(self.fields@, name@)].name@ == name@,
            decreases self.fields.len() - i,
        {
            if self.fields[i].name.same(&name) {
                return None;
            }
            i += 1;
        }
        let mut rank: usize = 0;
        assert(self.fields@.skip(0) =~= self.fields@);
        while rank < self.fields.len() && name_lt(
            self.fields[rank].name.as_bytes(),
            name.as_bytes(),
        )
            invariant
                rank <= self.fields.len(),
                forall|k: int|
                    0 <= k < rank ==> spec_name_lt((#[trigger] self.fields@[k]).name@, name@),
                spec_field_rank(self.fields@, name@) == rank + spec_field_rank(
                    self.fields@.skip(rank as int),
                    name@,
                ),
            decreases self.fields.len() - rank,
        {
            assert(self.fields@.skip(rank as int)[0] == self.fields@[rank as int]);
            assert(self.fields@.skip(rank as int).drop_first() =~= self.fields@.skip(rank + 1));
            rank += 1;
        }
        proof {
            if rank < self.fields.len() {
                assert(self.fields@.skip(rank as int)[0] == self.fields@[rank as int]);
            }
            assert(spec_field_rank(self.fields@, name@) == rank);
        }
        let ghost before = self.fields@;
        let ghost field = TupleField { name, value };
        let mut fields = self.fields;
        fields.insert(rank, TupleField { name, value });
        proof {
            assert forall|a: int, b: int| 0 <= a < b < fields@.len() implies spec_name_lt(
                (#[trigger] fields@[a]).name@,
                (#[trigger] fields@[b]).name@,
            ) by {
                if b < rank {
                    assert(fields@[a] == before[a] && fields@[b] == before[b]);
                } else if b == rank {
                    assert(fields@[a] == before[a]);
                } else if a == rank {
                    assert(fields@[b] == before[b - 1]);
                    assert(before[rank as int].name@ != name@);
                    lemma_name_order_total(before[rank as int].name@, name@);
                    if b - 1 > rank {
                        lemma_name_order_transitive(
                            name@,
                            before[rank as int].name@,
                            before[b - 1].name@,
                        );
                    }
                } else if a < rank {
                    assert(fields@[a] == before[a] && fields@[b] == before[b - 1]);
                } else {
                    assert(fields@[a] == before[a - 1] && fields@[b] == before[b - 1]);
                }
            }
        }
        Some(TupleData { fields })
    }
}

/// The sixteen bytes that stand for a signed integer: its value modulo
/// 2^128, most significant byte first.
pub open spec fn spec_int_bytes(n: int) -> Seq<u8> {
    if n >= 0 {
        spec_be_bytes(n as nat, 16)
    } else {
        spec_be_bytes((n + 0x1_0000_0000_0000_0000_0000_0000_0000_0000) as nat, 16)
    }
}

/// What stands for a principal: the version byte and the twenty bytes of
/// the account, and for a contract the length of its name and the name.
pub open spec fn spec_serialize_principal(principal: PrincipalData) -> Seq<u8> {
    match principal {
        PrincipalData::Standard(account) => seq![5u8, account.version] + account.bytes@,
        PrincipalData::Contract(id) => seq![6u8, id.issuer.version] + id.issuer.bytes@
            + spec_be_bytes(id.name@.len(), 1) + id.name@,
    }
}

/// The consensus serialization of a value: one byte that tells the shape,
/// then the content. Integers take sixteen bytes and lengths four, most
/// significant byte first; a name is preceded by its length in one byte.
pub open spec fn spec_serialize(value: Value) -> Seq<u8>
    decreases value,
{
    match value {
        Value::Int(n) => seq![0u8] + spec_int_bytes(n as int),
        Value::UInt(n) => seq![1u8] + spec_be_bytes(n as nat, 16),
        Value::Bool(flag) => if flag {
            seq![3u8]
        } else {
            seq![4u8]
        },
        Value::Sequence(SequenceData::Buffer(buff)) => seq![2u8] + spec_be_bytes(buff@.len(), 4)
            + buff@,
        Value::Sequence(SequenceData::List(list)) => seq![11u8] + spec_be_bytes(list@.len(), 4)
            + spec_serialize_items(list@),
        Value::Sequence(SequenceData::StringAscii(text)) => seq![13u8] + spec_be_bytes(
            text@.len(),
            4,
        ) + text@,
        Value::Sequence(SequenceData::StringUtf8(text)) => seq![14u8] + spec_be_bytes(
            text@.len(),
            4,
        ) + text@,
        Value::Principal(principal) => spec_serialize_principal(principal),
        Value::Tuple(tuple) => seq![12u8] + spec_be_bytes(tuple@.len(), 4)
            + spec_serialize_fields(tuple@),
        Value::Optional(OptionalData { data: None }) => seq![9u8],
        Value::Optional(OptionalData { data: Some(inner) }) => seq![10u8] + spec_serialize(*inner),
        Value::Response(ResponseData { committed, data }) => if committed {
            seq![7u8] + spec_serialize(*data)
        } else {
            seq![8u8] + spec_serialize(*data)
        },
    }
}

/// The serializations of the items, one after the other.
pub open spec fn spec_serialize_items(items: Seq<Value>) -> Seq<u8>
    decreases items,
{
    if items.len() == 0 {
        Seq::empty()
    } else {
        spec_serialize_items(items.drop_last()) + spec_serialize(items.last())
    }
}

/// The serializations of the fields, one after the other: for each the
/// length of its name, the name, and the value.
pub open spec fn spec_serialize_fields(fields: Seq<TupleField>) -> Seq<u8>
    decreases fields,
{
    if fields.len() == 0 {
        Seq::empty()
    } else {
        spec_serialize_fields(fields.drop_last()) + spec_be_bytes(fields.last().name@.len(), 1)
            + fields.last().name@ + spec_serialize(fields.last().value)
    }
}

/// Appends the sixteen bytes that stand for `n`.
fn push_int_bytes(out: &mut Vec<u8>, n: i128)
    ensures
        final(out)@ == old(out)@ + spec_int_bytes(n as int),
{
    if n >= 0 {
        push_be_bytes(out, n as u128, 16);
    } else {
        let below: u128 = (-(n + 1)) as u128;
        push_be_bytes(out, u128::MAX - below, 16);
    }
}

/// Appends what stands for `principal`.
fn push_principal(out: &mut Vec<u8>, principal: &PrincipalData)
    ensures
        final(out)@ == old(out)@ + spec_serialize_principal(*principal),
{
    let ghost before = out@;
    match principal {
        PrincipalData::Standard(account) => {
            out.push(5u8);
            out.push(account.version);
            push_all(out, account.bytes.as_slice());
        },
        PrincipalData::Contract(id) => {
            let name = id.name.as_bytes();
            out.push(6u8);
            out.push(id.issuer.version);
            push_all(out, id.issuer.bytes.as_slice());
            push_be_bytes(out, name.len() as u128, 1);
            push_all(out, name);
        },
    }
    assert(out@ =~= before + spec_serialize_principal(*principal));
}

/// Appends a shape byte, the length of `data` in four bytes, and `data`.
fn push_byte_string(out: &mut Vec<u8>, shape: u8, data: &[u8])
    requires
        data@.len() <= MAX_VALUE_SIZE,
    ensures
        final(out)@ == old(out)@ + (seq![shape] + spec_be_bytes(data@.len(), 4) + data@),
{
    let ghost before = out@;
    out.push(shape);
    push_be_bytes(out, data.len() as u128, 4);
    push_all(out, data);
    assert(out@ =~= before + (seq![shape] + spec_be_bytes(data@.len(), 4) + data@));
}

/// Appends the serializations of the items, one after the other.
fn serialize_items(items: &Vec<Value>, out: &mut Vec<u8>)
    ensures
        final(out)@ == old(out)@ + spec_serialize_items(items@),
    decreases items@,
{
    let ghost before = out@;
    let mut i: usize = 0;
    assert(out@ =~= before + spec_serialize_items(items@.subrange(0, 0)));
    while i < items.len()
        invariant
            i <= items.len(),
            out@ == before + spec_serialize_items(items@.subrange(0, i as int)),
        decreases items.len() - i,
    {
        items[i].serialize_into(out);
        i += 1;
        assert(items@.subrange(0, i as int).drop_last() =~= items@.subrange(0, i - 1));
        assert(out@ =~= before + spec_serialize_items(items@.subrange(0, i as int)));
    }
    assert(items@.subrange(0, i as int) =~= items@);
}

/// Appends the serializations of the fields, one after the other.
fn serialize_fields(fields: &Vec<TupleField>, out: &mut Vec<u8>)
    ensures
        final(out)@ == old(out)@ + spec_serialize_fields(fields@),
    decreases fields@,
{
    let ghost before = out@;
    let mut i: usize = 0;
    assert(out@ =~= before + spec_serialize_fields(fields@.subrange(0, 0)));
    while i < fields.len()
        invariant
            i <= fields.len(),
            out@ == before + spec_serialize_fields(fields@.subrange(0, i as int)),
        decreases fields.len() - i,
    {
        let name = fields[i].name.as_bytes();
        push_be_bytes(out, name.len() as u128, 1);
        push_all(out, name);
        fields[i].value.serialize_into(out);
        i += 1;
        assert(fields@.subrange(0, i as int).drop_last() =~= fields@.subrange(0, i - 1));
        assert(out@ =~= before + spec_serialize_fields(fields@.subrange(0, i as int)));
    }
    assert(fields@.subrange(0, i as int) =~= fields@);
}

impl Value {
    /// The consensus serialization of the value.
    pub fn consensus_serialize(&self) -> (bytes: Vec<u8>)
        ensures
            bytes@ == spec_serialize(*self),
    {
        let mut bytes: Vec<u8> = Vec::new();
        self.serialize_into(&mut bytes);
        assert(bytes@ =~= spec_serialize(*self));
        bytes
    }

    /// Appends the consensus serialization of the value to `out`.
    pub fn serialize_into(&self, out: &mut Vec<u8>)
        ensures
            final(out)@ == old(out)@ + spec_serialize(*self),
        decreases *self,
    {
        let ghost before = out@;
        match self {
            Value::Int(n) => {
                out.push(0u8);
                push_int_bytes(out, *n);
            },
            Value::UInt(n) => {
                out.push(1u8);
                push_be_bytes(out, *n, 16);
            },
            Value::Bool(flag) => {
                if *flag {
                    out.push(3u8);
                } else {
                    out.push(4u8);
                }
            },
            Value::Sequence(SequenceData::Buffer(buff)) => {
                push_byte_string(out, 2u8, buff.as_bytes());
            },
            Value::Sequence(SequenceData::List(list)) => {
                let items = list.items();
                out.push(11u8);
                push_be_bytes(out, items.len() as u128, 4);
                serialize_items(items, out);
            },
            Value::Sequence(SequenceData::StringAscii(text)) => {
                push_byte_string(out, 13u8, text.as_bytes());
            },
            Value::Sequence(SequenceData::StringUtf8(text)) => {
                push_byte_string(out, 14u8, text.as_bytes());
            },
            Value::Principal(principal) => {
                push_principal(out, principal);
            },
            Value::Tuple(tuple) => {
                let fields = tuple.fields();
                out.push(12u8);
                push_be_bytes(out, fields.len() as u128, 4);
                serialize_fields(fields, out);
            },
            Value::Optional(optional) => {
                match &optional.data {
                    None => {
                        out.push(9u8);
                    },
                    Some(inner) => {
                        out.push(10u8);
                        inner.serialize_into(out);
                    },
                }
            },
            Value::Response(response) => {
                if response.committed {
                    out.push(7u8);
                } else {
                    out.push(8u8);
                }
                response.data.serialize_into(out);
            },
        }
        assert(out@ =~= before + spec_serialize(*self));
    }
}


} // verus!
