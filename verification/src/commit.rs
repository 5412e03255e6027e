//! Commits and the store that holds them.
use vstd::prelude::*;
use vstd::string::*;

verus! {

/// The id of a commit.
#[derive(Debug, PartialEq, Eq)]
pub struct CommitId(pub Vec<u8>);

impl View for CommitId {
    type V = Seq<u8>;

    open spec fn view(&self) -> Seq<u8> {
        self.0@
    }
}

impl Clone for CommitId {
    fn clone(&self) -> (r: CommitId)
        ensures
            r@ == self@,
    {
        let bytes = self.0.clone();
        assert(bytes@ =~= self.0@);
        CommitId(bytes)
    }
}

impl CommitId {
    /// Whether the two ids are the same.
    pub fn same(&self, other: &CommitId) -> (r: bool)
        ensures
            r == (self@ == other@),
    {
        if self.0.len() != other.0.len() {
            return false;
        }
        for i in 0..self.0.len()
            invariant
                self@.len() == other@.len(),
                forall|k: int| 0 <= k < i ==> self@[k] == other@[k],
        {
            if self.0[i] != other.0[i] {
                assert(self@[i as int] != other@[i as int]);
                return false;
            }
        }
        assert(self@ =~= other@);
        true
    }
}

/// A commit.
#[derive(Debug, PartialEq, Eq)]
pub struct Commit {
    pub id: CommitId,
    pub description: String,
}

/// The mathematical value of a [`Commit`].
pub struct CommitModel {
    pub id: Seq<u8>,
    pub description: Seq<char>,
}

impl View for Commit {
    type V = CommitModel;

    open spec fn view(&self) -> CommitModel {
        CommitModel { id: self.id@, description: self.description@ }
    }
}

impl Commit {
    /// The id of the commit.
    pub fn id(&self) -> (r: &CommitId)
        ensures
            r@ == self@.id,
    {
        &self.id
    }

    /// The description of the commit.
    pub fn description(&self) -> (r: &str)
        ensures
            r@ == self@.description,
    {
        &self.description
    }
}

/// Why the store did not give a commit.
#[derive(Debug, PartialEq, Eq)]
pub enum StoreError {
    NotFound,
    Other(String),
}

/// The mathematical value of a [`StoreError`].
pub enum StoreErrorModel {
    NotFound,
    Other(Seq<char>),
}

impl View for StoreError {
    type V = StoreErrorModel;

    open spec fn view(&self) -> StoreErrorModel {
        match self {
            StoreError::NotFound => StoreErrorModel::NotFound,
            StoreError::Other(message) => StoreErrorModel::Other(message@),
        }
    }
}

impl StoreErrorModel {
    /// The error in words.
    pub open spec fn message(self) -> Seq<char> {
        match self {
            StoreErrorModel::NotFound => "Object not found"@,
            StoreErrorModel::Other(message) => "Error: "@ + message,
        }
    }
}

impl StoreError {
    /// The error in words.
    pub fn message(&self) -> (r: String)
        ensures
            r@ == self@.message(),
    {
        match self {
            StoreError::NotFound => "Object not found".to_owned(),
            StoreError::Other(message) => "Error: ".to_owned().concat(message),
        }
    }
}

impl Clone for StoreError {
    fn clone(&self) -> (r: StoreError)
        ensures
            r@ == self@,
    {
        match self {
            StoreError::NotFound => StoreError::NotFound,
            StoreError::Other(message) => StoreError::Other(message.clone()),
        }
    }
}

/// What reading one commit gives: its description, or an error.
#[derive(Debug)]
pub struct CommitRecord {
    pub id: CommitId,
    pub content: Result<String, StoreError>,
}

/// A store of commits. Of two records of one commit the later one holds; a
/// commit without a record is not found.
#[derive(Debug)]
pub struct Store {
    pub root: Commit,
    pub records: Vec<CommitRecord>,
}

/// The mathematical value of a [`Store`].
pub struct StoreModel {
    pub root: CommitModel,
    pub records: Map<Seq<u8>, Result<Seq<char>, StoreErrorModel>>,
}

/// The value of what a record holds.
pub open spec fn content_model(content: Result<String, StoreError>) -> Result<
    Seq<char>,
    StoreErrorModel,
> {
    match content {
        Ok(description) => Ok(description@),
        Err(error) => Err(error@),
    }
}

/// What the records say of each commit.
pub open spec fn record_map(records: Seq<CommitRecord>) -> Map<
    Seq<u8>,
    Result<Seq<char>, StoreErrorModel>,
>
    decreases records.len(),
{
    if records.len() == 0 {
        Map::empty()
    } else {
        record_map(records.drop_last()).insert(
            records.last().id@,
            content_model(records.last().content),
        )
    }
}

impl View for Store {
    type V = StoreModel;

    open spec fn view(&self) -> StoreModel {
        StoreModel { root: self.root@, records: record_map(self.records@) }
    }
}

/// The value of an outcome of reading a commit.
pub open spec fn commit_outcome(r: Result<Commit, StoreError>) -> Result<
    CommitModel,
    StoreErrorModel,
> {
    match r {
        Ok(commit) => Ok(commit@),
        Err(error) => Err(error@),
    }
}

impl StoreModel {
    /// What reading the commit `id` gives.
    pub open spec fn get_commit(self, id: Seq<u8>) -> Result<CommitModel, StoreErrorModel> {
        if self.records.dom().contains(id) {
            match self.records[id] {
                Ok(description) => Ok(CommitModel { id, description }),
                Err(error) => Err(error),
            }
        } else {
            Err(StoreErrorModel::NotFound)
        }
    }
}

impl Store {
    /// Reads the commit `id`.
    pub fn get_commit(&self, id: &CommitId) -> (r: Result<Commit, StoreError>)
        ensures
            commit_outcome(r) == self@.get_commit(id@),
    {
        let mut k: usize = self.records.len();
        assert(self.records@.take(k as int) =~= self.records@);
        while k > 0
            invariant
                k <= self.records@.len(),
                record_map(self.records@).dom().contains(id@) <==> record_map(
                    self.records@.take(k as int),
                ).dom().contains(id@),
                record_map(self.records@).dom().contains(id@) ==> record_map(
                    self.records@,
                )[id@] == record_map(self.records@.take(k as int))[id@],
            decreases k,
        {
            assert(self.records@.take(k as int).drop_last() =~= self.records@.take(k - 1));
            k -= 1;
            let record = &self.records[k];
            if record.id.same(id) {
                return match &record.content {
                    Ok(description) => Ok(
                        Commit { id: id.clone(), description: description.clone() },
                    ),
                    Err(error) => Err(error.clone()),
                };
            }
        }
        Err(StoreError::NotFound)
    }

    /// The root commit.
    pub fn root_commit(&self) -> (r: Commit)
        ensures
            r@ == self@.root,
    {
        Commit { id: self.root.id.clone(), description: self.root.description.clone() }
    }
}

} // verus!
