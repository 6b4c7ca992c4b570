//! The schema manager: which tables and indexes exist, and the
//! create-if-absent step that every operation runs first.

use vstd::prelude::*;

verus! {

/// One object of the schema: a table or a supporting index.
#[derive(Clone, Copy, Debug, PartialEq, Eq, Structural)]
pub enum SchemaObject {
    CardsTable,
    SessionsTable,
    AttemptsTable,
    CardsSubjectIndex,
    CardsDifficultyIndex,
    AttemptsSessionIndex,
    AttemptsCardIndex,
}

/// Which schema objects are present at a storage location. Each object is
/// present at most once by construction.
#[derive(Clone, Copy, Debug, PartialEq, Eq, Structural)]
pub struct Schema {
    pub cards_table: bool,
    pub sessions_table: bool,
    pub attempts_table: bool,
    pub cards_subject_index: bool,
    pub cards_difficulty_index: bool,
    pub attempts_session_index: bool,
    pub attempts_card_index: bool,
}

/// The objects in the order in which they are created: the three tables,
/// then the four indexes.
pub open spec fn creation_order() -> Seq<SchemaObject> {
    seq![
        SchemaObject::CardsTable,
        SchemaObject::SessionsTable,
        SchemaObject::AttemptsTable,
        SchemaObject::CardsSubjectIndex,
        SchemaObject::CardsDifficultyIndex,
        SchemaObject::AttemptsSessionIndex,
        SchemaObject::AttemptsCardIndex,
    ]
}

impl Schema {
    /// Whether `object` is present.
    pub open spec fn has(self, object: SchemaObject) -> bool {
        match object {
            SchemaObject::CardsTable => self.cards_table,
            SchemaObject::SessionsTable => self.sessions_table,
            SchemaObject::AttemptsTable => self.attempts_table,
            SchemaObject::CardsSubjectIndex => self.cards_subject_index,
            SchemaObject::CardsDifficultyIndex => self.cards_difficulty_index,
            SchemaObject::AttemptsSessionIndex => self.attempts_session_index,
            SchemaObject::AttemptsCardIndex => self.attempts_card_index,
        }
    }

    /// All three tables and all four indexes are present.
    pub open spec fn is_complete(self) -> bool {
        forall|object: SchemaObject| self.has(object)
    }

    /// The schema with every object present.
    pub open spec fn completed() -> Schema {
        Schema {
            cards_table: true,
            sessions_table: true,
            attempts_table: true,
            cards_subject_index: true,
            cards_difficulty_index: true,
            attempts_session_index: true,
            attempts_card_index: true,
        }
    }

    /// The schema with no object present.
    pub open spec fn vacant() -> Schema {
        Schema {
            cards_table: false,
            sessions_table: false,
            attempts_table: false,
            cards_subject_index: false,
            cards_difficulty_index: false,
            attempts_session_index: false,
            attempts_card_index: false,
        }
    }

    /// The objects that the create-if-absent step has to create: those of
    /// the creation order that are not present yet, in that order.
    pub open spec fn missing(self) -> Seq<SchemaObject> {
        creation_order().filter(|object: SchemaObject| !self.has(object))
    }

    /// A location at which nothing has been created yet.
    pub fn empty() -> (schema: Schema)
        ensures
            schema == Schema::vacant(),
            forall|object: SchemaObject| !schema.has(object),
    {
        Schema {
            cards_table: false,
            sessions_table: false,
            attempts_table: false,
            cards_subject_index: false,
            cards_difficulty_index: false,
            attempts_session_index: false,
            attempts_card_index: false,
        }
    }

    /// Reports whether `object` is present.
    pub fn contains(&self, object: SchemaObject) -> (present: bool)
        ensures
            present == self.has(object),
    {
        match object {
            SchemaObject::CardsTable => self.cards_table,
            SchemaObject::SessionsTable => self.sessions_table,
            SchemaObject::AttemptsTable => self.attempts_table,
            SchemaObject::CardsSubjectIndex => self.cards_subject_index,
            SchemaObject::CardsDifficultyIndex => self.cards_difficulty_index,
            SchemaObject::AttemptsSessionIndex => self.attempts_session_index,
            SchemaObject::AttemptsCardIndex => self.attempts_card_index,
        }
    }

    /// Marks `object` as present.
    fn put(&mut self, object: SchemaObject)
        ensures
            final(self).has(object),
            forall|other: SchemaObject| other != object ==> final(self).has(other) == old(self).has(other),
    {
        match object {
            SchemaObject::CardsTable => { self.cards_table = true; },
            SchemaObject::SessionsTable => { self.sessions_table = true; },
            SchemaObject::AttemptsTable => { self.attempts_table = true; },
            SchemaObject::CardsSubjectIndex => { self.cards_subject_index = true; },
            SchemaObject::CardsDifficultyIndex => { self.cards_difficulty_index = true; },
            SchemaObject::AttemptsSessionIndex => { self.attempts_session_index = true; },
            SchemaObject::AttemptsCardIndex => { self.attempts_card_index = true; },
        }
    }

    /// The create-if-absent step. Creates every object that is not present
    /// and returns what it created, in creation order; what was present is
    /// left as it was. On a complete schema it creates nothing.
    pub fn ensure(&mut self) -> (created: Vec<SchemaObject>)
        ensures
            created@ == old(self).missing(),
            *final(self) == Schema::completed(),
            final(self).is_complete(),
    {
        let order: [SchemaObject; 7] = [
            SchemaObject::CardsTable,
            SchemaObject::SessionsTable,
            SchemaObject::AttemptsTable,
            SchemaObject::CardsSubjectIndex,
            SchemaObject::CardsDifficultyIndex,
            SchemaObject::AttemptsSessionIndex,
            SchemaObject::AttemptsCardIndex,
        ];
        assert(order@ =~= creation_order());
        let ghost before = *self;
        let ghost absent = |object: SchemaObject| !before.has(object);
        let mut created: Vec<SchemaObject> = Vec::new();
        let mut i: usize = 0;
        assert(order@.subrange(0, 0) =~= Seq::<SchemaObject>::empty());
        while i < 7
            invariant
                i <= 7,
                order@ == creation_order(),
                absent == |object: SchemaObject| !before.has(object),
                created@ == order@.subrange(0, i as int).filter(absent),
                forall|k: int| 0 <= k < i ==> self.has(#[trigger] order@[k]),
                forall|k: int| i <= k < 7 ==> self.has(#[trigger] order@[k]) == before.has(order@[k]),
            decreases 7 - i,
        {
            let object = order[i];
            proof {
                let next = order@.subrange(0, i as int + 1);
                assert(next.drop_last() =~= order@.subrange(0, i as int));
                assert(next.last() == object);
                reveal(Seq::filter);
            }
            if !self.contains(object) {
                self.put(object);
                created.push(object);
            }
            i = i + 1;
        }
        assert(order@.subrange(0, 7) =~= order@);
        created
    }
}

} // verus!
