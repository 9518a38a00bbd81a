//! Structured element types: records of named fields.
//!
//! The fields of a record lie one after the other. Each field starts at
//! the next multiple of its alignment, and the record as a whole takes a
//! multiple of the greatest alignment among its fields.

use crate::array::{Array, ArrayError, can_allocate};
use crate::layout::{all_nonnegative, lemma_positive_iff_nonempty};
use crate::memory::{AlignedBuffer, allocate_aligned};
use crate::scalar::{
    capacity,
    le_bytes,
    le_value,
    lemma_capacity_values,
    lemma_le_bytes_value,
    lemma_le_value_bound,
    read_le,
    write_le,
};
use crate::shape::{bounded_product, copy_shape, same_shape, shape_product};
use crate::types::{alignment_of, DType, itemsize_of, NpyType};
use vstd::arithmetic::div_mod::{
    lemma_fundamental_div_mod,
    lemma_mod_bound,
    lemma_mod_multiples_basic,
};
use vstd::prelude::*;

verus! {

/// Why a record type was refused.
#[derive(Debug, Clone, Copy, PartialEq, Eq, Structural)]
pub enum StructuredError {
    /// A record needs at least one field.
    NoFields,
    /// A field has no name.
    EmptyName,
    /// The record takes more bytes than can be counted.
    TooLarge,
}

/// One field of a record.
#[derive(Debug)]
pub struct Field {
    /// The name of the field.
    pub name: String,
    /// The type of the field.
    pub dtype: DType,
    /// Where in the record the field starts, in bytes.
    pub offset: usize,
}

/// A record type: fields in order, and the size of a record in bytes.
#[derive(Debug)]
pub struct StructuredDType {
    fields: Vec<Field>,
    itemsize: usize,
}

/// The least multiple of `align` that is not less than `offset`.
pub open spec fn align_up(offset: int, align: int) -> int {
    ((offset + align - 1) / align) * align
}

/// Where field `i` starts in a record whose fields have the given kinds:
/// at the end of the field before it, moved up to a multiple of its own
/// alignment. The first field starts at 0.
pub open spec fn field_offset(kinds: Seq<NpyType>, i: int) -> int
    decreases i,
{
    if i <= 0 {
        0
    } else {
        align_up(
            field_offset(kinds, i - 1) + itemsize_of(kinds[i - 1]),
            alignment_of(kinds[i]) as int,
        )
    }
}

/// Where the last field of a record ends.
pub open spec fn fields_end(kinds: Seq<NpyType>) -> int {
    if kinds.len() == 0 {
        0
    } else {
        field_offset(kinds, kinds.len() - 1) + itemsize_of(kinds.last())
    }
}

/// The greatest alignment among the fields of a record; 1 for no fields.
pub open spec fn max_alignment(kinds: Seq<NpyType>) -> int
    decreases kinds.len(),
{
    if kinds.len() == 0 {
        1
    } else if alignment_of(kinds.last()) > max_alignment(kinds.drop_last()) {
        alignment_of(kinds.last()) as int
    } else {
        max_alignment(kinds.drop_last())
    }
}

/// The size of a record in bytes: the end of its last field, moved up to a
/// multiple of the greatest alignment among its fields.
pub open spec fn record_size(kinds: Seq<NpyType>) -> int {
    align_up(fields_end(kinds), max_alignment(kinds))
}

/// Moving an offset up to an alignment gives a multiple of the alignment
/// that is at least the offset and less than one alignment more.
pub proof fn lemma_align_up(offset: int, align: int)
    requires
        offset >= 0,
        align > 0,
    ensures
        offset <= align_up(offset, align) < offset + align,
        align_up(offset, align) % align == 0,
{
    let x = offset + align - 1;
    lemma_fundamental_div_mod(x, align);
    lemma_mod_bound(x, align);
    lemma_mod_multiples_basic(x / align, align);
    assert((x / align) * align == align * (x / align)) by (nonlinear_arith);
}

/// Every field of a record starts at a multiple of its alignment, and
/// after the end of the field before it.
pub proof fn lemma_field_offsets(kinds: Seq<NpyType>, i: int)
    requires
        0 <= i < kinds.len(),
    ensures
        field_offset(kinds, i) >= 0,
        field_offset(kinds, i) % (alignment_of(kinds[i]) as int) == 0,
        i > 0 ==> field_offset(kinds, i - 1) + itemsize_of(kinds[i - 1]) <= field_offset(kinds, i),
        field_offset(kinds, i) <= 16 * i,
    decreases i,
{
    if i > 0 {
        lemma_field_offsets(kinds, i - 1);
        lemma_align_up(
            field_offset(kinds, i - 1) + itemsize_of(kinds[i - 1]),
            alignment_of(kinds[i]) as int,
        );
    } else {
        assert(0int % (alignment_of(kinds[i]) as int) == 0);
    }
}

/// The greatest alignment of a record is one of 1, 2, 4 and 8, and no
/// field has a greater one.
pub proof fn lemma_max_alignment(kinds: Seq<NpyType>, i: int)
    requires
        0 <= i < kinds.len(),
    ensures
        1 <= max_alignment(kinds) <= 8,
        alignment_of(kinds[i]) <= max_alignment(kinds),
    decreases kinds.len(),
{
    if kinds.len() > 1 {
        lemma_max_alignment(kinds.drop_last(), if i < kinds.len() - 1 {
            i
        } else {
            0
        });
    } else {
        assert(max_alignment(kinds.drop_last()) == 1);
    }
}

/// The size of a record is a multiple of its greatest alignment and holds
/// every field.
pub proof fn lemma_record_size(kinds: Seq<NpyType>)
    requires
        kinds.len() > 0,
    ensures
        fields_end(kinds) <= record_size(kinds) < fields_end(kinds) + 8,
        record_size(kinds) % max_alignment(kinds) == 0,
        record_size(kinds) <= 16 * kinds.len(),
{
    lemma_field_offsets(kinds, kinds.len() - 1);
    lemma_max_alignment(kinds, 0);
    lemma_align_up(fields_end(kinds), max_alignment(kinds));
}

impl StructuredDType {
    #[verifier::type_invariant]
    spec fn well_formed(self) -> bool {
        &&& self.fields.len() > 0
        &&& self.itemsize == record_size(self.kinds())
        &&& forall|i: int|
            0 <= i < self.fields.len() ==> (#[trigger] self.fields[i]).offset == field_offset(
                self.kinds(),
                i,
            )
        &&& forall|i: int|
            0 <= i < self.fields.len() ==> (#[trigger] self.fields[i]).name@.len() > 0
    }

    /// The kinds of the fields, in order.
    pub closed spec fn kinds(self) -> Seq<NpyType> {
        Seq::new(self.fields.len() as nat, |i: int| self.fields[i].dtype.kind())
    }

    /// The names of the fields, in order.
    pub closed spec fn names(self) -> Seq<Seq<char>> {
        Seq::new(self.fields.len() as nat, |i: int| self.fields[i].name@)
    }

    /// The fields, in order.
    pub closed spec fn spec_fields(self) -> Seq<Field> {
        self.fields@
    }

    /// A record type of the given fields, in order. A record without
    /// fields is refused, and so is one with a field without a name. Two
    /// fields may have the same name.
    pub fn new(fields: Vec<(String, DType)>) -> (result: Result<StructuredDType, StructuredError>)
        ensures
            match result {
                Ok(record) => {
                    &&& fields.len() > 0
                    &&& forall|i: int| 0 <= i < fields.len() ==> (#[trigger] fields[i]).0@.len() > 0
                    &&& record.kinds() == Seq::new(fields.len() as nat, |i: int| fields[i].1.kind())
                    &&& record.names() == Seq::new(fields.len() as nat, |i: int| fields[i].0@)
                    &&& record_size(record.kinds()) <= usize::MAX
                },
                Err(e) => match e {
                    StructuredError::NoFields => fields.len() == 0,
                    StructuredError::EmptyName => fields.len() > 0 && exists|i: int|
                        #![trigger fields[i]]
                        0 <= i < fields.len() && fields[i].0@.len() == 0,
                    StructuredError::TooLarge => {
                        &&& fields.len() > 0
                        &&& forall|i: int|
                            0 <= i < fields.len() ==> (#[trigger] fields[i]).0@.len() > 0
                        &&& record_size(Seq::new(fields.len() as nat, |i: int| fields[i].1.kind()))
                            > usize::MAX
                    },
                },
            },
    {
        let n: usize = fields.len();
        if n == 0 {
            return Err(StructuredError::NoFields);
        }
        let mut j: usize = 0;
        while j < n
            invariant
                n == fields.len(),
                j <= n,
                forall|i: int| 0 <= i < j ==> (#[trigger] fields[i]).0@.len() > 0,
            decreases n - j,
        {
            if fields[j].0.as_str().is_empty() {
                return Err(StructuredError::EmptyName);
            }
            j += 1;
        }
        let ghost kinds = Seq::new(n as nat, |i: int| fields[i].1.kind());
        let mut laid: Vec<Field> = Vec::with_capacity(n);
        let mut end: u128 = 0;
        let mut widest: usize = 1;
        let mut i: usize = 0;
        proof {
            assert(kinds.take(0) =~= Seq::<NpyType>::empty());
        }
        while i < n
            invariant
                n == fields.len(),
                n > 0,
                i <= n,
                kinds == Seq::new(n as nat, |i: int| fields[i].1.kind()),
                forall|i: int| 0 <= i < n ==> (#[trigger] fields[i]).0@.len() > 0,
                laid.len() == i,
                forall|k: int|
                    0 <= k < i ==> {
                        &&& (#[trigger] laid[k]).name@ == fields[k].0@
                        &&& laid[k].dtype.kind() == kinds[k]
                        &&& laid[k].offset == field_offset(kinds, k)
                    },
                end == fields_end(kinds.take(i as int)),
                i > 0 ==> end == field_offset(kinds, i - 1) + itemsize_of(kinds[i - 1]),
                0 <= end <= 16 * i,
                widest == max_alignment(kinds.take(i as int)),
                1 <= widest <= 8,
            decreases n - i,
        {
            let dtype: DType = fields[i].1;
            let align: u128 = dtype.align() as u128;
            let size: u128 = dtype.itemsize() as u128;
            proof {
                lemma_align_up(end as int, align as int);
                let grown = kinds.take(i + 1);
                assert(grown.drop_last() =~= kinds.take(i as int));
                assert(grown.last() == kinds[i as int]);
                lemma_offsets_of_prefix(kinds, i + 1, i as int);
                if i == 0 {
                    vstd::arithmetic::div_mod::lemma_basic_div(align - 1, align as int);
                    assert(0 * (align as int) == 0) by (nonlinear_arith);
                }
            }
            let start: u128 = ((end + align - 1) / align) * align;
            if start > usize::MAX as u128 {
                proof {
                    lemma_offsets_grow(kinds, i as int);
                }
                return Err(StructuredError::TooLarge);
            }
            let name: String = fields[i].0.clone();
            laid.push(Field { name, dtype, offset: start as usize });
            end = start + size;
            if dtype.align() > widest {
                widest = dtype.align();
            }
            i += 1;
        }
        proof {
            assert(kinds.take(n as int) =~= kinds);
            lemma_record_size(kinds);
        }
        let wide: u128 = widest as u128;
        let total: u128 = ((end + wide - 1) / wide) * wide;
        if total > usize::MAX as u128 {
            return Err(StructuredError::TooLarge);
        }
        proof {
            let laid_kinds = Seq::new(laid.len() as nat, |i: int| laid[i].dtype.kind());
            assert(laid_kinds =~= kinds);
        }
        let record = StructuredDType { fields: laid, itemsize: total as usize };
        proof {
            assert(record.kinds() =~= kinds);
            assert(record.names() =~= Seq::new(n as nat, |i: int| fields[i].0@));
        }
        Ok(record)
    }

    /// The number of fields.
    pub fn num_fields(&self) -> (count: usize)
        ensures
            count == self.kinds().len(),
            count == self.names().len(),
            count > 0,
    {
        proof {
            use_type_invariant(self);
        }
        self.fields.len()
    }

    /// The size of a record in bytes.
    pub fn itemsize(&self) -> (size: usize)
        ensures
            size == record_size(self.kinds()),
    {
        proof {
            use_type_invariant(self);
        }
        self.itemsize
    }

    /// The names of the fields, in order.
    pub fn field_names(&self) -> (names: Vec<String>)
        ensures
            names.len() == self.names().len(),
            forall|i: int| 0 <= i < names.len() ==> (#[trigger] names[i])@ == self.names()[i],
    {
        let n: usize = self.fields.len();
        let mut names: Vec<String> = Vec::with_capacity(n);
        let mut i: usize = 0;
        while i < n
            invariant
                n == self.fields.len(),
                i <= n,
                names.len() == i,
                forall|k: int| 0 <= k < i ==> (#[trigger] names[k])@ == self.fields[k].name@,
            decreases n - i,
        {
            names.push(self.fields[i].name.clone());
            i += 1;
        }
        names
    }

    /// Field number `index`, or nothing where there are not that many
    /// fields.
    pub fn get_field(&self, index: usize) -> (field: Option<&Field>)
        ensures
            match field {
                Some(f) => {
                    &&& index < self.kinds().len()
                    &&& *f == self.spec_fields()[index as int]
                    &&& f.name@ == self.names()[index as int]
                    &&& f.dtype.kind() == self.kinds()[index as int]
                    &&& f.offset == field_offset(self.kinds(), index as int)
                },
                None => index >= self.kinds().len(),
            },
    {
        proof {
            use_type_invariant(self);
        }
        if index < self.fields.len() {
            Some(&self.fields[index])
        } else {
            None
        }
    }

    /// The first field of the given name, or nothing where no field has
    /// that name.
    pub fn get_field_by_name(&self, name: &str) -> (field: Option<&Field>)
        ensures
            match field {
                Some(f) => exists|i: int|
                    #![trigger self.names()[i]]
                    {
                        &&& 0 <= i < self.names().len()
                        &&& self.names()[i] == name@
                        &&& forall|k: int| 0 <= k < i ==> #[trigger] self.names()[k] != name@
                        &&& *f == self.spec_fields()[i]
                        &&& f.name@ == name@
                        &&& f.dtype.kind() == self.kinds()[i]
                        &&& f.offset == field_offset(self.kinds(), i)
                    },
                None => forall|i: int|
                    0 <= i < self.names().len() ==> #[trigger] self.names()[i] != name@,
            },
    {
        proof {
            use_type_invariant(self);
        }
        let wanted: String = name.to_owned();
        let n: usize = self.fields.len();
        let mut i: usize = 0;
        while i < n
            invariant
                n == self.fields.len(),
                i <= n,
                wanted@ == name@,
                forall|k: int| 0 <= k < i ==> #[trigger] self.names()[k] != name@,
            decreases n - i,
        {
            if self.fields[i].name == wanted {
                proof {
                    use_type_invariant(self);
                    let w = i as int;
                    assert(self.names()[w] == name@);
                    assert(self.fields[w].offset == field_offset(self.kinds(), w));
                    assert(self.fields[w].dtype.kind() == self.kinds()[w]);
                }
                return Some(&self.fields[i]);
            }
            assert(self.names()[i as int] != name@);
            i += 1;
        }
        None
    }
}

/// The fields at the front of a record lie where they would lie in the
/// record of those fields alone.
pub proof fn lemma_offsets_of_prefix(kinds: Seq<NpyType>, k: int, i: int)
    requires
        0 <= i < k <= kinds.len(),
    ensures
        field_offset(kinds.take(k), i) == field_offset(kinds, i),
    decreases i,
{
    if i > 0 {
        lemma_offsets_of_prefix(kinds, k, i - 1);
    }
}

/// The size of a record is at least the offset of each of its fields.
pub proof fn lemma_offsets_grow(kinds: Seq<NpyType>, i: int)
    requires
        0 <= i < kinds.len(),
    ensures
        field_offset(kinds, i) <= record_size(kinds),
    decreases kinds.len() - i,
{
    lemma_field_offsets(kinds, i);
    if i == kinds.len() - 1 {
        lemma_record_size(kinds);
    } else {
        lemma_field_offsets(kinds, i + 1);
        lemma_offsets_grow(kinds, i + 1);
    }
}

/// Every field of a record lies within the record.
pub proof fn lemma_field_within_record(kinds: Seq<NpyType>, i: int)
    requires
        0 <= i < kinds.len(),
    ensures
        0 <= field_offset(kinds, i),
        field_offset(kinds, i) + itemsize_of(kinds[i]) <= record_size(kinds),
    decreases kinds.len() - i,
{
    lemma_field_offsets(kinds, i);
    if i == kinds.len() - 1 {
        lemma_record_size(kinds);
    } else {
        lemma_field_offsets(kinds, i + 1);
        lemma_field_within_record(kinds, i + 1);
    }
}

/// The number of the first field of the given name, or the number of
/// fields where no field has that name.
pub open spec fn field_index(names: Seq<Seq<char>>, name: Seq<char>) -> int
    decreases names.len(),
{
    if names.len() == 0 {
        0
    } else if names.first() == name {
        0
    } else {
        1 + field_index(names.drop_first(), name)
    }
}

/// The number of the first field of a name is the least number of a field
/// of that name.
pub proof fn lemma_field_index(names: Seq<Seq<char>>, name: Seq<char>, i: int)
    requires
        0 <= i <= names.len(),
        i < names.len() ==> names[i] == name,
        forall|k: int| 0 <= k < i ==> #[trigger] names[k] != name,
    ensures
        field_index(names, name) == i,
    decreases names.len(),
{
    if names.len() > 0 && i > 0 {
        let rest = names.drop_first();
        assert(names[0] != name);
        assert forall|k: int| 0 <= k < i - 1 implies #[trigger] rest[k] != name by {
            assert(names[k + 1] != name);
        }
        lemma_field_index(rest, name, i - 1);
    }
}

/// The bit pattern of a field of record number `k` in a run of records:
/// what the bytes of the field spell.
pub open spec fn field_bits(bytes: Seq<u8>, record: int, offset: int, width: int, k: int) -> u64 {
    le_value(bytes.subrange(k * record + offset, k * record + offset + width)) as u64
}

/// An array of records: a shape, a record type, and the bytes of the
/// records one after the other in row-major order.
#[derive(Debug)]
pub struct StructuredArray {
    dtype: StructuredDType,
    shape: Vec<i64>,
    buffer: AlignedBuffer,
    size: usize,
}

impl StructuredArray {
    #[verifier::type_invariant]
    spec fn well_formed(self) -> bool {
        &&& all_nonnegative(self.shape@)
        &&& self.size == shape_product(self.shape@)
        &&& self.buffer@.len() == self.size * self.dtype.itemsize
        &&& self.dtype.fields.len() > 0
        &&& self.dtype.itemsize == record_size(self.dtype.kinds())
        &&& forall|i: int|
            0 <= i < self.dtype.fields.len() ==> (#[trigger] self.dtype.fields[i]).offset
                == field_offset(self.dtype.kinds(), i)
        &&& forall|i: int|
            0 <= i < self.dtype.fields.len() ==> (#[trigger] self.dtype.fields[i]).name@.len() > 0
    }

    /// The kinds of the fields of a record.
    pub closed spec fn kinds(&self) -> Seq<NpyType> {
        self.dtype.kinds()
    }

    /// The names of the fields of a record.
    pub closed spec fn names(&self) -> Seq<Seq<char>> {
        self.dtype.names()
    }

    /// The size of each dimension.
    pub closed spec fn spec_shape(&self) -> Seq<i64> {
        self.shape@
    }

    /// The bytes of the records.
    pub closed spec fn spec_bytes(&self) -> Seq<u8> {
        self.buffer@
    }

    /// The size of each dimension.
    pub fn shape(&self) -> (shape: &[i64])
        ensures
            shape@ == self.spec_shape(),
            all_nonnegative(shape@),
    {
        proof {
            use_type_invariant(self);
        }
        self.shape.as_slice()
    }

    /// The number of records.
    pub fn size(&self) -> (size: usize)
        ensures
            size == shape_product(self.spec_shape()),
            self.spec_bytes().len() == size * record_size(self.kinds()),
    {
        proof {
            use_type_invariant(self);
        }
        self.size
    }

    /// The record type.
    pub fn dtype(&self) -> (dtype: &StructuredDType)
        ensures
            dtype.kinds() == self.kinds(),
            dtype.names() == self.names(),
    {
        &self.dtype
    }
}

/// What making an array of records comes to.
///
/// Fields that make no record type are a type mismatch; after that, a
/// negative dimension is an invalid shape; after that, records that
/// together take more bytes than can be allocated are out of memory;
/// after that, too few bytes of data are a size mismatch. The array holds
/// the first bytes of the data, as many as the records take.
pub open spec fn structured_error(
    names: Seq<Seq<char>>,
    kinds: Seq<NpyType>,
    data: Seq<u8>,
    shape: Seq<i64>,
) -> Option<ArrayError> {
    if names.len() == 0 || (exists|i: int|
        #![trigger names[i]]
        0 <= i < names.len() && names[i].len() == 0) || record_size(kinds) > usize::MAX {
        Some(ArrayError::TypeMismatch)
    } else if !all_nonnegative(shape) {
        Some(ArrayError::InvalidShape)
    } else if shape_product(shape) * record_size(kinds) + 8 > isize::MAX {
        Some(ArrayError::OutOfMemory)
    } else if data.len() < shape_product(shape) * record_size(kinds) {
        Some(ArrayError::SizeMismatch)
    } else {
        None
    }
}

/// An array of records of the given fields and shape, which holds the
/// first bytes of `data`: as many as the records take together.
pub fn structured_array(fields: Vec<(String, DType)>, data: &[u8], shape: Vec<i64>) -> (result:
    Result<StructuredArray, ArrayError>)
    ensures
        match result {
            Ok(array) => {
                &&& structured_error(array.names(), array.kinds(), data@, shape@) is None
                &&& array.kinds() == Seq::new(fields.len() as nat, |i: int| fields[i].1.kind())
                &&& array.names() == Seq::new(fields.len() as nat, |i: int| fields[i].0@)
                &&& array.spec_shape() == shape@
                &&& array.spec_bytes() == data@.take(
                    shape_product(shape@) * record_size(array.kinds()),
                )
            },
            Err(e) => structured_error(
                Seq::new(fields.len() as nat, |i: int| fields[i].0@),
                Seq::new(fields.len() as nat, |i: int| fields[i].1.kind()),
                data@,
                shape@,
            ) == Some(e),
        },
{
    let ghost names = Seq::new(fields.len() as nat, |i: int| fields[i].0@);
    let ghost kinds = Seq::new(fields.len() as nat, |i: int| fields[i].1.kind());
    let dtype: StructuredDType = match StructuredDType::new(fields) {
        Ok(dtype) => dtype,
        Err(e) => {
            proof {
                match e {
                    StructuredError::EmptyName => {
                        let i = choose|i: int|
                            #![trigger fields[i]]
                            0 <= i < fields.len() && fields[i].0@.len() == 0;
                        assert(names[i].len() == 0);
                    },
                    _ => {},
                }
            }
            return Err(ArrayError::TypeMismatch);
        },
    };
    proof {
        use_type_invariant(&dtype);
        assert forall|i: int| 0 <= i < names.len() implies (#[trigger] names[i]).len() > 0 by {
            assert(dtype.names()[i] == names[i]);
            assert(dtype.fields[i].name@.len() > 0);
        }
        lemma_record_size(kinds);
        lemma_field_offsets(kinds, 0);
    }
    let n: usize = shape.len();
    let mut i: usize = 0;
    while i < n
        invariant
            n == shape.len(),
            i <= n,
            dtype.kinds() == kinds,
            dtype.names() == names,
            names == Seq::new(fields.len() as nat, |i: int| fields[i].0@),
            kinds == Seq::new(fields.len() as nat, |i: int| fields[i].1.kind()),
            names.len() > 0,
            record_size(kinds) <= usize::MAX,
            forall|i: int| 0 <= i < names.len() ==> (#[trigger] names[i]).len() > 0,
            forall|j: int| 0 <= j < i ==> shape[j] >= 0,
        decreases n - i,
    {
        if shape[i] < 0 {
            return Err(ArrayError::InvalidShape);
        }
        i += 1;
    }
    let record: usize = dtype.itemsize();
    proof {
        lemma_positive_iff_nonempty(shape@);
    }
    let size: u128 = match bounded_product(shape.as_slice()) {
        Some(p) => p as u128,
        None => {
            proof {
                let p = shape_product(shape@);
                assert(p * record > isize::MAX) by (nonlinear_arith)
                    requires
                        p > 0x8000_0000_0000_0000,
                        record >= 1,
                        isize::MAX < 0x8000_0000_0000_0000,
                ;
            }
            return Err(ArrayError::OutOfMemory);
        },
    };
    assert(size * record <= 0x8000_0000_0000_0000 * 0x1_0000_0000_0000_0000) by (nonlinear_arith)
        requires
            0 <= size <= 0x8000_0000_0000_0000,
            0 <= record < 0x1_0000_0000_0000_0000,
    ;
    let needed: u128 = size * record as u128;
    if needed + 8 > isize::MAX as u128 {
        return Err(ArrayError::OutOfMemory);
    }
    if (data.len() as u128) < needed {
        return Err(ArrayError::SizeMismatch);
    }
    let needed: usize = needed as usize;
    proof {
        assert(size <= size * record) by (nonlinear_arith)
            requires
                size >= 0,
                record >= 1,
        ;
        reveal_with_fuel(crate::memory::is_power_of_two, 5);
    }
    let mut buffer: AlignedBuffer = allocate_aligned(needed, 8);
    let mut b: usize = 0;
    while b < needed
        invariant
            b <= needed,
            needed <= data.len(),
            buffer@.len() == needed,
            forall|j: int| 0 <= j < b ==> buffer@[j] == data[j],
        decreases needed - b,
    {
        buffer.write(b, data[b]);
        b += 1;
    }
    proof {
        assert(buffer@ =~= data@.take(needed as int));
    }
    let array = StructuredArray { dtype, shape, buffer, size: size as usize };
    Ok(array)
}

/// The bit patterns of one field of every record, in the order of the
/// records.
pub open spec fn column(bytes: Seq<u8>, kinds: Seq<NpyType>, field: int, count: int) -> Seq<u64> {
    Seq::new(
        count as nat,
        |k: int|
            field_bits(
                bytes,
                record_size(kinds),
                field_offset(kinds, field),
                itemsize_of(kinds[field]) as int,
                k,
            ),
    )
}

/// What reading a field of an array of records comes to: an index error
/// where no field has the name, after that out of memory where the result
/// cannot be allocated, and else the number of the field.
pub open spec fn get_field_spec(array: &StructuredArray, name: Seq<char>) -> Result<
    int,
    ArrayError,
> {
    let field = field_index(array.names(), name);
    if field >= array.names().len() {
        Err(ArrayError::IndexError)
    } else if !can_allocate(array.spec_shape(), array.kinds()[field]) {
        Err(ArrayError::OutOfMemory)
    } else {
        Ok(field)
    }
}

/// The first field of the given name of every record, as a new array of
/// the shape of the array of records and of the type of the field.
pub fn get_field(array: &StructuredArray, name: &str) -> (result: Result<Array, ArrayError>)
    ensures
        match result {
            Ok(out) => {
                let field = field_index(array.names(), name@);
                &&& get_field_spec(array, name@) == Ok::<int, ArrayError>(field)
                &&& out@.shape == array.spec_shape()
                &&& out@.dtype == array.kinds()[field]
                &&& out@.elements == column(
                    array.spec_bytes(),
                    array.kinds(),
                    field,
                    shape_product(array.spec_shape()),
                )
                &&& out@.wf()
                &&& out.is_packed()
            },
            Err(e) => get_field_spec(array, name@) == Err::<int, ArrayError>(e),
        },
{
    proof {
        use_type_invariant(array);
    }
    let found: &Field = match array.dtype.get_field_by_name(name) {
        Some(found) => found,
        None => {
            proof {
                lemma_field_index(array.names(), name@, array.names().len() as int);
            }
            return Err(ArrayError::IndexError);
        },
    };
    let ghost kinds = array.kinds();
    let ghost field = field_index(array.names(), name@);
    proof {
        let i = choose|i: int|
            #![trigger array.dtype.names()[i]]
            {
                &&& 0 <= i < array.dtype.names().len()
                &&& array.dtype.names()[i] == name@
                &&& forall|k: int| 0 <= k < i ==> #[trigger] array.dtype.names()[k] != name@
                &&& *found == array.dtype.spec_fields()[i]
                &&& found.name@ == name@
                &&& found.dtype.kind() == array.dtype.kinds()[i]
                &&& found.offset == field_offset(array.dtype.kinds(), i)
            };
        lemma_field_index(array.names(), name@, i);
        lemma_field_within_record(kinds, field);
    }
    let dtype: DType = found.dtype;
    let offset: usize = found.offset;
    let width: usize = dtype.itemsize();
    let record: usize = array.dtype.itemsize();
    let size: usize = array.size;
    let mut out: Array = match Array::new(copy_shape(array.shape.as_slice()), dtype) {
        Ok(out) => out,
        Err(_) => {
            return Err(ArrayError::OutOfMemory);
        },
    };
    let ghost len = array.buffer@.len();
    proof {
        array.buffer.lemma_len_bound();
    }
    let ghost expected = column(array.spec_bytes(), kinds, field, size as int);
    let mut k: usize = 0;
    while k < size
        invariant
            k <= size,
            size == shape_product(array.shape@),
            len == array.buffer@.len(),
            len <= usize::MAX,
            len == size * record,
            record == record_size(kinds),
            offset == field_offset(kinds, field),
            width == itemsize_of(kinds[field]),
            1 <= width <= 8,
            0 <= offset,
            offset + width <= record,
            expected == column(array.spec_bytes(), kinds, field, size as int),
            out@.shape == array.shape@,
            out@.dtype == kinds[field],
            out@.elements.len() == size,
            out.is_packed(),
            out@.wf(),
            forall|j: int| 0 <= j < k ==> #[trigger] out@.elements[j] == expected[j],
        decreases size - k,
    {
        proof {
            assert(k * record + record <= size * record) by (nonlinear_arith)
                requires
                    k < size,
                    record >= 0,
            ;
            assert(k * record >= 0) by (nonlinear_arith)
                requires
                    k >= 0,
                    record >= 0,
            ;
        }
        let at: usize = k * record + offset;
        let bits: u64 = read_le(&array.buffer, at, width);
        let ghost before = out@.elements;
        out.put(k, bits);
        proof {
            lemma_le_value_bound(array.buffer@.subrange(at as int, at + width));
            lemma_capacity_values();
            vstd::arithmetic::div_mod::lemma_small_mod(bits as nat, capacity(width as nat));
            assert forall|j: int| 0 <= j < k + 1 implies #[trigger] out@.elements[j]
                == expected[j] by {
                if j < k {
                    assert(out@.elements[j] == before[j]);
                }
            }
        }
        k += 1;
    }
    proof {
        assert(out@.elements =~= expected);
    }
    Ok(out)
}

/// Why a field of an array of records cannot be written from an array,
/// if it cannot: an index error where no field has the name, after that
/// a type mismatch where the array holds another kind of element than the
/// field, after that a shape mismatch where the array has another shape
/// than the array of records.
pub open spec fn set_field_error(
    array: &StructuredArray,
    name: Seq<char>,
    value: crate::array::ArrayView,
) -> Option<ArrayError> {
    let field = field_index(array.names(), name);
    if field >= array.names().len() {
        Some(ArrayError::IndexError)
    } else if value.dtype != array.kinds()[field] {
        Some(ArrayError::TypeMismatch)
    } else if value.shape != array.spec_shape() {
        Some(ArrayError::ShapeMismatch)
    } else {
        None
    }
}

/// Whether byte `b` of a run of records lies in the given field of one of
/// the first `count` records.
pub open spec fn in_column(b: int, record: int, offset: int, width: int, count: int) -> bool {
    exists|k: int|
        #![trigger k * record]
        0 <= k < count && k * record + offset <= b < k * record + offset + width
}

/// Writes the first field of the given name of every record from an
/// array of the shape of the array of records and of the type of the field.
/// No other byte of any record changes.
pub fn set_field(array: &mut StructuredArray, name: &str, value: &Array) -> (result: Result<
    (),
    ArrayError,
>)
    ensures
        final(array).kinds() == old(array).kinds(),
        final(array).names() == old(array).names(),
        final(array).spec_shape() == old(array).spec_shape(),
        final(array).spec_bytes().len() == old(array).spec_bytes().len(),
        match result {
            Ok(_) => {
                let field = field_index(old(array).names(), name@);
                let kinds = old(array).kinds();
                &&& set_field_error(old(array), name@, value@) is None
                &&& column(
                    final(array).spec_bytes(),
                    kinds,
                    field,
                    shape_product(old(array).spec_shape()),
                ) == value@.elements
                &&& forall|b: int|
                    0 <= b < old(array).spec_bytes().len() && !in_column(
                        b,
                        record_size(kinds),
                        field_offset(kinds, field),
                        itemsize_of(kinds[field]) as int,
                        shape_product(old(array).spec_shape()),
                    ) ==> #[trigger] final(array).spec_bytes()[b] == old(array).spec_bytes()[b]
            },
            Err(e) => {
                &&& set_field_error(old(array), name@, value@) == Some(e)
                &&& final(array).spec_bytes() == old(array).spec_bytes()
            },
        },
{
    proof {
        use_type_invariant(&*array);
    }
    let found: &Field = match array.dtype.get_field_by_name(name) {
        Some(found) => found,
        None => {
            proof {
                lemma_field_index(array.names(), name@, array.names().len() as int);
            }
            return Err(ArrayError::IndexError);
        },
    };
    let ghost kinds = array.kinds();
    let ghost field = field_index(array.names(), name@);
    proof {
        let i = choose|i: int|
            #![trigger array.dtype.names()[i]]
            {
                &&& 0 <= i < array.dtype.names().len()
                &&& array.dtype.names()[i] == name@
                &&& forall|k: int| 0 <= k < i ==> #[trigger] array.dtype.names()[k] != name@
                &&& *found == array.dtype.spec_fields()[i]
                &&& found.name@ == name@
                &&& found.dtype.kind() == array.dtype.kinds()[i]
                &&& found.offset == field_offset(array.dtype.kinds(), i)
            };
        lemma_field_index(array.names(), name@, i);
        lemma_field_within_record(kinds, field);
    }
    let dtype: DType = found.dtype;
    let offset: usize = found.offset;
    if value.dtype().type_() != dtype.type_() {
        return Err(ArrayError::TypeMismatch);
    }
    if !same_shape(value.shape(), array.shape.as_slice()) {
        return Err(ArrayError::ShapeMismatch);
    }
    let width: usize = dtype.itemsize();
    let record: usize = array.dtype.itemsize();
    let size: usize = array.size;
    let ghost len = array.buffer@.len();
    proof {
        array.buffer.lemma_len_bound();
    }
    let mut k: usize = 0;
    while k < size
        invariant
            k <= size,
            array.well_formed(),
            array.kinds() == old(array).kinds(),
            array.names() == old(array).names(),
            array.spec_shape() == old(array).spec_shape(),
            kinds == old(array).kinds(),
            size == shape_product(array.shape@),
            size == value@.elements.len(),
            value@.wf(),
            value@.dtype == kinds[field],
            len == array.buffer@.len(),
            len <= usize::MAX,
            len == old(array).spec_bytes().len(),
            len == size * record,
            record == record_size(kinds),
            offset == field_offset(kinds, field),
            width == itemsize_of(kinds[field]),
            1 <= width <= 8,
            0 <= offset,
            offset + width <= record,
            forall|j: int|
                0 <= j < k ==> #[trigger] field_bits(
                    array.buffer@,
                    record as int,
                    offset as int,
                    width as int,
                    j,
                ) == value@.elements[j],
            forall|b: int|
                0 <= b < len && !in_column(b, record as int, offset as int, width as int, k as int)
                    ==> #[trigger] array.buffer@[b] == old(array).spec_bytes()[b],
        decreases size - k,
    {
        proof {
            assert(k * record + record <= size * record) by (nonlinear_arith)
                requires
                    k < size,
                    record >= 0,
            ;
            assert(k * record >= 0) by (nonlinear_arith)
                requires
                    k >= 0,
                    record >= 0,
            ;
        }
        let at: usize = k * record + offset;
        let bits: u64 = value.element(k);
        let ghost before = array.buffer@;
        write_le(&mut array.buffer, at, width, bits);
        proof {
            lemma_le_bytes_value(bits as nat, width as nat);
            lemma_capacity_values();
            vstd::arithmetic::div_mod::lemma_small_mod(bits as nat, capacity(width as nat));
            assert forall|j: int| 0 <= j < k + 1 implies #[trigger] field_bits(
                array.buffer@,
                record as int,
                offset as int,
                width as int,
                j,
            ) == value@.elements[j] by {
                if j < k {
                    let other = j * record + offset;
                    assert(other + width <= at) by (nonlinear_arith)
                        requires
                            other == j * record + offset,
                            at == k * record + offset,
                            j < k,
                            offset + width <= record,
                            record >= 0,
                    ;
                    assert(other >= 0) by (nonlinear_arith)
                        requires
                            other == j * record + offset,
                            j >= 0,
                            record >= 0,
                            offset >= 0,
                    ;
                    assert(array.buffer@.subrange(other, other + width) =~= before.subrange(
                        other,
                        other + width,
                    ));
                    assert(field_bits(before, record as int, offset as int, width as int, j)
                        == value@.elements[j]);
                }
            }
            assert forall|b: int|
                0 <= b < len && !in_column(
                    b,
                    record as int,
                    offset as int,
                    width as int,
                    k + 1,
                ) implies #[trigger] array.buffer@[b] == old(array).spec_bytes()[b] by {
                if at <= b < at + width {
                    assert(k * record + offset <= b < k * record + offset + width);
                    assert(in_column(b, record as int, offset as int, width as int, k + 1));
                }
                if in_column(b, record as int, offset as int, width as int, k as int) {
                    let w = choose|w: int|
                        #![trigger w * record]
                        0 <= w < k && w * record + offset <= b < w * record + offset + width;
                    assert(0 <= w < k + 1 && w * record + offset <= b < w * record + offset
                        + width);
                }
                assert(array.buffer@[b] == before[b]);
            }
        }
        k += 1;
    }
    proof {
        assert(column(array.spec_bytes(), kinds, field, size as int) =~= value@.elements);
    }
    Ok(())
}

} // verus!
