//! Packed code point to class tables.
//!
//! A table holds the class of every code point in a few bits, so that a
//! classification is one load. Its invariant is that it agrees everywhere with
//! the class function it was built from.

use super::bert;
use super::bert::{BertCharClass, BertNormClass};
use super::category;
use super::classes;
use super::classes::{CharClass, DsCharClass, KimiCharClass, O200kCharClass};
use super::packed;
use vstd::prelude::*;

verus! {

fn code_of_class(class: CharClass) -> (code: u8)
    ensures
        code == classes::class_code(class),
        code < 4,
{
    match class {
        CharClass::Letter => 0,
        CharClass::Number => 1,
        CharClass::Whitespace => 2,
        CharClass::Other => 3,
    }
}

fn class_with_code(code: u8) -> (class: CharClass)
    ensures
        forall|c: CharClass| code == #[trigger] classes::class_code(c) ==> class == c,
{
    match code {
        0 => CharClass::Letter,
        1 => CharClass::Number,
        2 => CharClass::Whitespace,
        _ => CharClass::Other,
    }
}

/// The four-way classes: one code per code point.
fn class_codes() -> (codes: Vec<u8>)
    ensures
        codes@.len() == category::CODE_POINTS,
        forall|cp: u32|
            cp < category::CODE_POINTS ==> #[trigger] codes@[cp as int] == classes::class_code(
                classes::char_class(cp),
            ),
        forall|i: int| 0 <= i < codes@.len() ==> #[trigger] codes@[i] < 4,
{
    let mut codes: Vec<u8> = Vec::new();
    let mut cp: u32 = 0;
    while cp < category::CODE_POINTS
        invariant
            cp <= category::CODE_POINTS,
            codes@.len() == cp,
            forall|k: u32|
                k < cp ==> #[trigger] codes@[k as int] == classes::class_code(classes::char_class(k)),
            forall|i: int| 0 <= i < codes@.len() ==> #[trigger] codes@[i] < 4,
        decreases category::CODE_POINTS - cp,
    {
        codes.push(code_of_class(classes::class_of(cp)));
        cp += 1;
    }
    codes
}

/// The four-way classes, packed 2 bits to a code point.
#[derive(Debug)]
pub struct ClassTable {
    packed: Vec<u8>,
}

impl ClassTable {
    /// Every code point's code stands in the table.
    pub closed spec fn well_formed(self) -> bool {
        &&& self.packed@.len() == 278528
        &&& forall|cp: u32|
            cp < category::CODE_POINTS ==> packed::quad_at(self.packed@, cp as int)
                == classes::class_code(#[trigger] classes::char_class(cp))
    }

    /// Builds the table.
    pub fn get() -> (table: Self)
        ensures
            table.well_formed(),
    {
        let codes = class_codes();
        let packed = packed::pack_2bit(&codes);
        assert forall|cp: u32| cp < category::CODE_POINTS implies packed::quad_at(packed@, cp as int)
            == classes::class_code(#[trigger] classes::char_class(cp)) by {
            assert(packed::quad_at(packed@, cp as int) == codes@[cp as int]);
        }
        ClassTable { packed }
    }

    /// The class of a code point, with one load.
    pub fn class_of(&self, cp: u32) -> (class: CharClass)
        requires
            self.well_formed(),
            cp < category::CODE_POINTS,
        ensures
            class == classes::char_class(cp),
    {
        let code: u8 = packed::read_2bit(&self.packed, cp);
        assert(code == classes::class_code(classes::char_class(cp)));
        class_with_code(code)
    }
}

fn code_of_ds_class(class: DsCharClass) -> (code: u8)
    ensures
        code == classes::ds_class_code(class),
        code < 6,
{
    match class {
        DsCharClass::Letter => 0,
        DsCharClass::Number => 1,
        DsCharClass::Whitespace => 2,
        DsCharClass::Mark => 3,
        DsCharClass::PunctSym => 4,
        DsCharClass::Other => 5,
    }
}

fn ds_class_with_code(code: u8) -> (class: DsCharClass)
    ensures
        forall|c: DsCharClass| code == #[trigger] classes::ds_class_code(c) ==> class == c,
{
    match code {
        0 => DsCharClass::Letter,
        1 => DsCharClass::Number,
        2 => DsCharClass::Whitespace,
        3 => DsCharClass::Mark,
        4 => DsCharClass::PunctSym,
        _ => DsCharClass::Other,
    }
}

/// The DeepSeek classes: one code per code point.
fn ds_class_codes() -> (codes: Vec<u8>)
    ensures
        codes@.len() == category::CODE_POINTS,
        forall|cp: u32|
            cp < category::CODE_POINTS ==> #[trigger] codes@[cp as int] == classes::ds_class_code(
                classes::ds_char_class(cp),
            ),
        forall|i: int| 0 <= i < codes@.len() ==> #[trigger] codes@[i] < 6,
{
    let mut codes: Vec<u8> = Vec::new();
    let mut cp: u32 = 0;
    while cp < category::CODE_POINTS
        invariant
            cp <= category::CODE_POINTS,
            codes@.len() == cp,
            forall|k: u32|
                k < cp ==> #[trigger] codes@[k as int] == classes::ds_class_code(classes::ds_char_class(k)),
            forall|i: int| 0 <= i < codes@.len() ==> #[trigger] codes@[i] < 6,
        decreases category::CODE_POINTS - cp,
    {
        codes.push(code_of_ds_class(classes::ds_class_of(cp)));
        cp += 1;
    }
    codes
}

/// The DeepSeek classes, packed 4 bits to a code point.
#[derive(Debug)]
pub struct DsClassTable {
    packed: Vec<u8>,
}

impl DsClassTable {
    /// Every code point's code stands in the table.
    pub closed spec fn well_formed(self) -> bool {
        &&& self.packed@.len() == 557056
        &&& forall|cp: u32|
            cp < category::CODE_POINTS ==> packed::pair_at(self.packed@, cp as int)
                == classes::ds_class_code(#[trigger] classes::ds_char_class(cp))
    }

    /// Builds the table.
    pub fn get() -> (table: Self)
        ensures
            table.well_formed(),
    {
        let codes = ds_class_codes();
        let packed = packed::pack_nibbles(&codes);
        assert forall|cp: u32| cp < category::CODE_POINTS implies packed::pair_at(packed@, cp as int)
            == classes::ds_class_code(#[trigger] classes::ds_char_class(cp)) by {
            assert(packed::pair_at(packed@, cp as int) == codes@[cp as int]);
        }
        DsClassTable { packed }
    }

    /// The class of a code point, with one load.
    pub fn ds_class_of(&self, cp: u32) -> (class: DsCharClass)
        requires
            self.well_formed(),
            cp < category::CODE_POINTS,
        ensures
            class == classes::ds_char_class(cp),
    {
        let code: u8 = packed::read_nibble(&self.packed, cp);
        assert(code == classes::ds_class_code(classes::ds_char_class(cp)));
        ds_class_with_code(code)
    }

    /// The four-way class in which marks join letters.
    pub fn class_of_marks_join(&self, cp: u32) -> (class: CharClass)
        requires
            self.well_formed(),
            cp < category::CODE_POINTS,
        ensures
            class == classes::marks_join(classes::ds_char_class(cp)),
    {
        classes::join_marks(self.ds_class_of(cp))
    }
}

fn code_of_o200k_class(class: O200kCharClass) -> (code: u8)
    ensures
        code == classes::o200k_class_code(class),
        code < 7,
{
    match class {
        O200kCharClass::Upper => 0,
        O200kCharClass::Lower => 1,
        O200kCharClass::Caseless => 2,
        O200kCharClass::Mark => 3,
        O200kCharClass::Number => 4,
        O200kCharClass::Whitespace => 5,
        O200kCharClass::Other => 6,
    }
}

fn o200k_class_with_code(code: u8) -> (class: O200kCharClass)
    ensures
        forall|c: O200kCharClass| code == #[trigger] classes::o200k_class_code(c) ==> class == c,
{
    match code {
        0 => O200kCharClass::Upper,
        1 => O200kCharClass::Lower,
        2 => O200kCharClass::Caseless,
        3 => O200kCharClass::Mark,
        4 => O200kCharClass::Number,
        5 => O200kCharClass::Whitespace,
        _ => O200kCharClass::Other,
    }
}

/// The o200k classes: one code per code point.
fn o200k_class_codes() -> (codes: Vec<u8>)
    ensures
        codes@.len() == category::CODE_POINTS,
        forall|cp: u32|
            cp < category::CODE_POINTS ==> #[trigger] codes@[cp as int] == classes::o200k_class_code(
                classes::o200k_char_class(cp),
            ),
        forall|i: int| 0 <= i < codes@.len() ==> #[trigger] codes@[i] < 7,
{
    let mut codes: Vec<u8> = Vec::new();
    let mut cp: u32 = 0;
    while cp < category::CODE_POINTS
        invariant
            cp <= category::CODE_POINTS,
            codes@.len() == cp,
            forall|k: u32|
                k < cp ==> #[trigger] codes@[k as int] == classes::o200k_class_code(classes::o200k_char_class(k)),
            forall|i: int| 0 <= i < codes@.len() ==> #[trigger] codes@[i] < 7,
        decreases category::CODE_POINTS - cp,
    {
        codes.push(code_of_o200k_class(classes::o200k_class_of(cp)));
        cp += 1;
    }
    codes
}

/// The o200k classes, packed 4 bits to a code point.
#[derive(Debug)]
pub struct O200kClassTable {
    packed: Vec<u8>,
}

impl O200kClassTable {
    /// Every code point's code stands in the table.
    pub closed spec fn well_formed(self) -> bool {
        &&& self.packed@.len() == 557056
        &&& forall|cp: u32|
            cp < category::CODE_POINTS ==> packed::pair_at(self.packed@, cp as int)
                == classes::o200k_class_code(#[trigger] classes::o200k_char_class(cp))
    }

    /// Builds the table.
    pub fn get() -> (table: Self)
        ensures
            table.well_formed(),
    {
        let codes = o200k_class_codes();
        let packed = packed::pack_nibbles(&codes);
        assert forall|cp: u32| cp < category::CODE_POINTS implies packed::pair_at(packed@, cp as int)
            == classes::o200k_class_code(#[trigger] classes::o200k_char_class(cp)) by {
            assert(packed::pair_at(packed@, cp as int) == codes@[cp as int]);
        }
        O200kClassTable { packed }
    }

    /// The class of a code point, with one load.
    pub fn class_of(&self, cp: u32) -> (class: O200kCharClass)
        requires
            self.well_formed(),
            cp < category::CODE_POINTS,
        ensures
            class == classes::o200k_char_class(cp),
    {
        let code: u8 = packed::read_nibble(&self.packed, cp);
        assert(code == classes::o200k_class_code(classes::o200k_char_class(cp)));
        o200k_class_with_code(code)
    }
}

fn code_of_kimi_class(class: KimiCharClass) -> (code: u8)
    ensures
        code == classes::kimi_class_code(class),
        code < 10,
{
    match class {
        KimiCharClass::Upper => 0,
        KimiCharClass::Lower => 1,
        KimiCharClass::Caseless => 2,
        KimiCharClass::Mark => 3,
        KimiCharClass::Number => 4,
        KimiCharClass::Whitespace => 5,
        KimiCharClass::Other => 6,
        KimiCharClass::Han => 7,
        KimiCharClass::HanNumber => 8,
        KimiCharClass::HanOther => 9,
    }
}

fn kimi_class_with_code(code: u8) -> (class: KimiCharClass)
    ensures
        forall|c: KimiCharClass| code == #[trigger] classes::kimi_class_code(c) ==> class == c,
{
    match code {
        0 => KimiCharClass::Upper,
        1 => KimiCharClass::Lower,
        2 => KimiCharClass::Caseless,
        3 => KimiCharClass::Mark,
        4 => KimiCharClass::Number,
        5 => KimiCharClass::Whitespace,
        6 => KimiCharClass::Other,
        7 => KimiCharClass::Han,
        8 => KimiCharClass::HanNumber,
        _ => KimiCharClass::HanOther,
    }
}

/// The Kimi classes: one code per code point.
fn kimi_class_codes() -> (codes: Vec<u8>)
    ensures
        codes@.len() == category::CODE_POINTS,
        forall|cp: u32|
            cp < category::CODE_POINTS ==> #[trigger] codes@[cp as int] == classes::kimi_class_code(
                classes::kimi_char_class(cp),
            ),
        forall|i: int| 0 <= i < codes@.len() ==> #[trigger] codes@[i] < 10,
{
    let mut codes: Vec<u8> = Vec::new();
    let mut cp: u32 = 0;
    while cp < category::CODE_POINTS
        invariant
            cp <= category::CODE_POINTS,
            codes@.len() == cp,
            forall|k: u32|
                k < cp ==> #[trigger] codes@[k as int] == classes::kimi_class_code(classes::kimi_char_class(k)),
            forall|i: int| 0 <= i < codes@.len() ==> #[trigger] codes@[i] < 10,
        decreases category::CODE_POINTS - cp,
    {
        codes.push(code_of_kimi_class(classes::kimi_class_of(cp)));
        cp += 1;
    }
    codes
}

/// The Kimi classes, packed 4 bits to a code point.
#[derive(Debug)]
pub struct KimiClassTable {
    packed: Vec<u8>,
}

impl KimiClassTable {
    /// Every code point's code stands in the table.
    pub closed spec fn well_formed(self) -> bool {
        &&& self.packed@.len() == 557056
        &&& forall|cp: u32|
            cp < category::CODE_POINTS ==> packed::pair_at(self.packed@, cp as int)
                == classes::kimi_class_code(#[trigger] classes::kimi_char_class(cp))
    }

    /// Builds the table.
    pub fn get() -> (table: Self)
        ensures
            table.well_formed(),
    {
        let codes = kimi_class_codes();
        let packed = packed::pack_nibbles(&codes);
        assert forall|cp: u32| cp < category::CODE_POINTS implies packed::pair_at(packed@, cp as int)
            == classes::kimi_class_code(#[trigger] classes::kimi_char_class(cp)) by {
            assert(packed::pair_at(packed@, cp as int) == codes@[cp as int]);
        }
        KimiClassTable { packed }
    }

    /// The class of a code point, with one load.
    pub fn class_of(&self, cp: u32) -> (class: KimiCharClass)
        requires
            self.well_formed(),
            cp < category::CODE_POINTS,
        ensures
            class == classes::kimi_char_class(cp),
    {
        let code: u8 = packed::read_nibble(&self.packed, cp);
        assert(code == classes::kimi_class_code(classes::kimi_char_class(cp)));
        kimi_class_with_code(code)
    }
}

fn code_of_bert_class(class: BertCharClass) -> (code: u8)
    ensures
        code == bert::bert_class_code(class),
        code < 3,
{
    match class {
        BertCharClass::Word => 0,
        BertCharClass::Whitespace => 1,
        BertCharClass::Punct => 2,
    }
}

fn bert_class_with_code(code: u8) -> (class: BertCharClass)
    ensures
        forall|c: BertCharClass| code == #[trigger] bert::bert_class_code(c) ==> class == c,
{
    match code {
        0 => BertCharClass::Word,
        1 => BertCharClass::Whitespace,
        _ => BertCharClass::Punct,
    }
}

/// The BERT pretokenizer classes: one code per code point.
fn bert_class_codes() -> (codes: Vec<u8>)
    ensures
        codes@.len() == category::CODE_POINTS,
        forall|cp: u32|
            cp < category::CODE_POINTS ==> #[trigger] codes@[cp as int] == bert::bert_class_code(
                bert::bert_char_class(cp),
            ),
        forall|i: int| 0 <= i < codes@.len() ==> #[trigger] codes@[i] < 4,
{
    let mut codes: Vec<u8> = Vec::new();
    let mut cp: u32 = 0;
    while cp < category::CODE_POINTS
        invariant
            cp <= category::CODE_POINTS,
            codes@.len() == cp,
            forall|k: u32|
                k < cp ==> #[trigger] codes@[k as int] == bert::bert_class_code(bert::bert_char_class(k)),
            forall|i: int| 0 <= i < codes@.len() ==> #[trigger] codes@[i] < 4,
        decreases category::CODE_POINTS - cp,
    {
        codes.push(code_of_bert_class(bert::bert_class_of(cp)));
        cp += 1;
    }
    codes
}

/// The BERT pretokenizer classes, packed 2 bits to a code point.
#[derive(Debug)]
pub struct BertClassTable {
    packed: Vec<u8>,
}

impl BertClassTable {
    /// Every code point's code stands in the table.
    pub closed spec fn well_formed(self) -> bool {
        &&& self.packed@.len() == 278528
        &&& forall|cp: u32|
            cp < category::CODE_POINTS ==> packed::quad_at(self.packed@, cp as int)
                == bert::bert_class_code(#[trigger] bert::bert_char_class(cp))
    }

    /// Builds the table.
    pub fn get() -> (table: Self)
        ensures
            table.well_formed(),
    {
        let codes = bert_class_codes();
        let packed = packed::pack_2bit(&codes);
        assert forall|cp: u32| cp < category::CODE_POINTS implies packed::quad_at(packed@, cp as int)
            == bert::bert_class_code(#[trigger] bert::bert_char_class(cp)) by {
            assert(packed::quad_at(packed@, cp as int) == codes@[cp as int]);
        }
        BertClassTable { packed }
    }

    /// The class of a code point, with one load.
    pub fn class_of(&self, cp: u32) -> (class: BertCharClass)
        requires
            self.well_formed(),
            cp < category::CODE_POINTS,
        ensures
            class == bert::bert_char_class(cp),
    {
        let code: u8 = packed::read_2bit(&self.packed, cp);
        assert(code == bert::bert_class_code(bert::bert_char_class(cp)));
        bert_class_with_code(code)
    }
}

fn code_of_bert_norm_class(class: BertNormClass) -> (code: u8)
    ensures
        code == bert::bert_norm_class_code(class),
        code < 4,
{
    match class {
        BertNormClass::Keep => 0,
        BertNormClass::Whitespace => 1,
        BertNormClass::Remove => 2,
        BertNormClass::Mark => 3,
    }
}

fn bert_norm_class_with_code(code: u8) -> (class: BertNormClass)
    ensures
        forall|c: BertNormClass| code == #[trigger] bert::bert_norm_class_code(c) ==> class == c,
{
    match code {
        0 => BertNormClass::Keep,
        1 => BertNormClass::Whitespace,
        2 => BertNormClass::Remove,
        _ => BertNormClass::Mark,
    }
}

/// The BERT normalizer classes: one code per code point.
fn bert_norm_class_codes() -> (codes: Vec<u8>)
    ensures
        codes@.len() == category::CODE_POINTS,
        forall|cp: u32|
            cp < category::CODE_POINTS ==> #[trigger] codes@[cp as int] == bert::bert_norm_class_code(
                bert::bert_norm_class(cp),
            ),
        forall|i: int| 0 <= i < codes@.len() ==> #[trigger] codes@[i] < 4,
{
    let mut codes: Vec<u8> = Vec::new();
    let mut cp: u32 = 0;
    while cp < category::CODE_POINTS
        invariant
            cp <= category::CODE_POINTS,
            codes@.len() == cp,
            forall|k: u32|
                k < cp ==> #[trigger] codes@[k as int] == bert::bert_norm_class_code(bert::bert_norm_class(k)),
            forall|i: int| 0 <= i < codes@.len() ==> #[trigger] codes@[i] < 4,
        decreases category::CODE_POINTS - cp,
    {
        codes.push(code_of_bert_norm_class(bert::bert_norm_class_of(cp)));
        cp += 1;
    }
    codes
}

/// The BERT normalizer classes, packed 2 bits to a code point.
#[derive(Debug)]
pub struct BertNormTable {
    packed: Vec<u8>,
}

impl BertNormTable {
    /// Every code point's code stands in the table.
    pub closed spec fn well_formed(self) -> bool {
        &&& self.packed@.len() == 278528
        &&& forall|cp: u32|
            cp < category::CODE_POINTS ==> packed::quad_at(self.packed@, cp as int)
                == bert::bert_norm_class_code(#[trigger] bert::bert_norm_class(cp))
    }

    /// Builds the table.
    pub fn get() -> (table: Self)
        ensures
            table.well_formed(),
    {
        let codes = bert_norm_class_codes();
        let packed = packed::pack_2bit(&codes);
        assert forall|cp: u32| cp < category::CODE_POINTS implies packed::quad_at(packed@, cp as int)
            == bert::bert_norm_class_code(#[trigger] bert::bert_norm_class(cp)) by {
            assert(packed::quad_at(packed@, cp as int) == codes@[cp as int]);
        }
        BertNormTable { packed }
    }

    /// The class of a code point, with one load.
    pub fn class_of(&self, cp: u32) -> (class: BertNormClass)
        requires
            self.well_formed(),
            cp < category::CODE_POINTS,
        ensures
            class == bert::bert_norm_class(cp),
    {
        let code: u8 = packed::read_2bit(&self.packed, cp);
        assert(code == bert::bert_norm_class_code(bert::bert_norm_class(cp)));
        bert_norm_class_with_code(code)
    }
}

} // verus!
