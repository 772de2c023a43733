//! The schema interface: a read-only lookup from tag identifier to type
//! code and level, and a dictionary that holds a catalog of entries.

use crate::ebml::EbmlId;
use std::collections::HashMap;
use vstd::prelude::*;
use vstd::std_specs::hash::group_hash_axioms;

verus! {

broadcast use group_hash_axioms;

/// What a dictionary entry tells the codec.
pub trait Schema {
    spec fn spec_name(&self) -> Seq<char>;

    spec fn spec_type_code(&self) -> char;

    spec fn spec_level(&self) -> i64;

    fn name(&self) -> (name: &str)
        ensures
            name@ == self.spec_name(),
    ;

    /// One of `m u i f s 8 b d`.
    fn type_code(&self) -> (code: char)
        ensures
            code == self.spec_type_code(),
    ;

    fn level(&self) -> (level: i64)
        ensures
            level == self.spec_level(),
    ;
}

/// A read-only dictionary of tag identifiers.
pub trait SchemaDict {
    type Item: Schema;

    /// The dictionary as a mapping from identifier to type code and level.
    spec fn entries(&self) -> Map<EbmlId, crate::ebml::Schema>;

    /// Looks an identifier up; `None` where the dictionary does not hold it.
    fn get(&self, ebml_id: EbmlId) -> (found: Option<&Self::Item>)
        ensures
            match found {
                Some(item) => self.entries().contains_key(ebml_id) && self.entries()[ebml_id] == (
                crate::ebml::Schema {
                    type_code: item.spec_type_code(),
                    level: item.spec_level(),
                }),
                None => !self.entries().contains_key(ebml_id),
            },
    ;
}

/// One entry of a catalog of tags.
#[derive(Debug, Clone, PartialEq)]
pub struct DefaultSchemaEntry {
    pub name: String,
    pub type_code: char,
    pub level: i64,
    pub description: String,
    pub cppname: Option<String>,
    pub multiple: Option<bool>,
    pub webm: Option<bool>,
    pub minver: Option<i64>,
    pub bytesize: Option<i64>,
    pub range: Option<String>,
}

impl Schema for DefaultSchemaEntry {
    open spec fn spec_name(&self) -> Seq<char> {
        self.name@
    }

    open spec fn spec_type_code(&self) -> char {
        self.type_code
    }

    open spec fn spec_level(&self) -> i64 {
        self.level
    }

    fn name(&self) -> (name: &str) {
        self.name.as_str()
    }

    fn type_code(&self) -> (code: char) {
        self.type_code
    }

    fn level(&self) -> (level: i64) {
        self.level
    }
}

/// A catalog of tags, keyed by identifier.
#[derive(Debug, Clone, PartialEq)]
pub struct DefaultSchema(pub HashMap<i64, DefaultSchemaEntry>);

impl DefaultSchema {
    /// A catalog without entries.
    pub fn new() -> (schema: Self)
        ensures
            schema.entries() == Map::<EbmlId, crate::ebml::Schema>::empty(),
    {
        let schema = DefaultSchema(HashMap::new());
        assert(schema.entries() =~= Map::<EbmlId, crate::ebml::Schema>::empty());
        schema
    }

    /// Adds an entry, in place of the one that the identifier had.
    pub fn insert(&mut self, ebml_id: EbmlId, entry: DefaultSchemaEntry)
        ensures
            final(self).entries() == old(self).entries().insert(
                ebml_id,
                crate::ebml::Schema { type_code: entry.type_code, level: entry.level },
            ),
    {
        let _ = self.0.insert(ebml_id.0, entry);
        assert(self.entries() =~= old(self).entries().insert(
            ebml_id,
            crate::ebml::Schema { type_code: entry.type_code, level: entry.level },
        ));
    }
}

impl SchemaDict for DefaultSchema {
    type Item = DefaultSchemaEntry;

    open spec fn entries(&self) -> Map<EbmlId, crate::ebml::Schema> {
        Map::new(
            |ebml_id: EbmlId| self.0@.contains_key(ebml_id.0),
            |ebml_id: EbmlId|
                crate::ebml::Schema {
                    type_code: self.0@[ebml_id.0].type_code,
                    level: self.0@[ebml_id.0].level,
                },
        )
    }

    fn get(&self, ebml_id: EbmlId) -> (found: Option<&DefaultSchemaEntry>) {
        self.0.get(&ebml_id.0)
    }
}

} // verus!
