//! Validated boolean queries over terms, phrases and prefixes.
//! A query is a list of nodes in which children precede their parents.

use crate::analysis::PROFILE_ID;
use crate::error::{Error, Result};
use vstd::prelude::*;
use vstd::utf8::encode_utf8;

verus! {

/// What a node of a query asks for.
#[derive(Debug)]
pub enum Kind {
    Nothing,
    Term(String),
    Phrase(Vec<String>),
    Prefix(String),
    Not(usize),
    And(usize, usize),
    Or(usize, usize),
}

/// A node of a query.
#[derive(Debug)]
pub struct Node {
    pub kind: Kind,
}

/// What a node asks for, with texts as their bytes.
pub enum KindModel {
    Nothing,
    Term(Seq<u8>),
    Phrase(Seq<Seq<u8>>),
    Prefix(Seq<u8>),
    Not(int),
    And(int, int),
    Or(int, int),
}

/// The bytes of each of a list of texts.
pub open spec fn texts(terms: Seq<String>) -> Seq<Seq<u8>> {
    Seq::new(terms.len(), |i: int| encode_utf8(terms[i]@))
}

impl View for Node {
    type V = KindModel;

    open spec fn view(&self) -> KindModel {
        match self.kind {
            Kind::Nothing => KindModel::Nothing,
            Kind::Term(term) => KindModel::Term(encode_utf8(term@)),
            Kind::Phrase(terms) => KindModel::Phrase(texts(terms@)),
            Kind::Prefix(prefix) => KindModel::Prefix(encode_utf8(prefix@)),
            Kind::Not(child) => KindModel::Not(child as int),
            Kind::And(left, right) => KindModel::And(left as int, right as int),
            Kind::Or(left, right) => KindModel::Or(left as int, right as int),
        }
    }
}

/// The nodes of a query and the one that decides.
#[verifier::ext_equal]
pub struct QueryModel {
    pub nodes: Seq<KindModel>,
    pub root: int,
}

/// Whether the children of a node precede it; a phrase has a word.
pub open spec fn ordered(kind: KindModel, index: int) -> bool {
    match kind {
        KindModel::Phrase(terms) => terms.len() > 0,
        KindModel::Not(child) => 0 <= child < index,
        KindModel::And(left, right) => 0 <= left < index && 0 <= right < index,
        KindModel::Or(left, right) => 0 <= left < index && 0 <= right < index,
        _ => true,
    }
}

/// Whether a phrase stands at a position of a document.
pub open spec fn phrase_at(document: Seq<Seq<u8>>, phrase: Seq<Seq<u8>>, start: int) -> bool {
    0 <= start && start + phrase.len() <= document.len() && document.subrange(
        start,
        start + phrase.len(),
    ) == phrase
}

/// Whether a word starts with a prefix.
pub open spec fn starts_with(word: Seq<u8>, prefix: Seq<u8>) -> bool {
    prefix.len() <= word.len() && word.take(prefix.len() as int) == prefix
}

/// Whether a word of the document starts with the prefix.
pub open spec fn prefix_present(document: Seq<Seq<u8>>, prefix: Seq<u8>) -> bool {
    exists|i: int| 0 <= i < document.len() && starts_with(#[trigger] document[i], prefix)
}

/// Whether the phrase stands somewhere in the document.
pub open spec fn phrase_present(document: Seq<Seq<u8>>, phrase: Seq<Seq<u8>>) -> bool {
    exists|start: int| #[trigger] phrase_at(document, phrase, start)
}

impl QueryModel {
    pub open spec fn wf(self) -> bool {
        &&& 0 <= self.root < self.nodes.len()
        &&& forall|i: int| 0 <= i < self.nodes.len() ==> ordered(#[trigger] self.nodes[i], i)
    }

    /// Whether a document, as its words in order, satisfies the node.
    pub open spec fn holds_at(self, index: int, document: Seq<Seq<u8>>) -> bool
        decreases index,
    {
        match self.nodes[index] {
            KindModel::Nothing => false,
            KindModel::Term(term) => document.contains(term),
            KindModel::Phrase(terms) => phrase_present(document, terms),
            KindModel::Prefix(prefix) => prefix_present(document, prefix),
            KindModel::Not(child) => if 0 <= child < index {
                !self.holds_at(child, document)
            } else {
                false
            },
            KindModel::And(left, right) => if 0 <= left < index && 0 <= right < index {
                self.holds_at(left, document) && self.holds_at(right, document)
            } else {
                false
            },
            KindModel::Or(left, right) => if 0 <= left < index && 0 <= right < index {
                self.holds_at(left, document) || self.holds_at(right, document)
            } else {
                false
            },
        }
    }

    /// Whether a document satisfies the query.
    pub open spec fn holds(self, document: Seq<Seq<u8>>) -> bool {
        self.holds_at(self.root, document)
    }
}

/// A query whose nodes are in order.
#[derive(Debug)]
pub struct Query {
    nodes: Vec<Node>,
    root: usize,
}

impl View for Query {
    type V = QueryModel;

    closed spec fn view(&self) -> QueryModel {
        QueryModel {
            nodes: Seq::new(self.nodes@.len(), |i: int| self.nodes@[i]@),
            root: self.root as int,
        }
    }
}

/// The query that nodes and a root make up.
pub open spec fn assembled(nodes: Seq<Node>, root: usize) -> QueryModel {
    QueryModel { nodes: Seq::new(nodes.len(), |i: int| nodes[i]@), root: root as int }
}

impl Query {
    #[verifier::type_invariant]
    closed spec fn inv(self) -> bool {
        self@.wf()
    }

    /// Takes nodes in which children precede their parents.
    ///
    /// # Errors
    /// Rejects a root outside the nodes, a child that does not precede its parent
    /// and a phrase without words.
    #[verifier::loop_isolation(false)]
    pub fn new(nodes: Vec<Node>, root: usize) -> (result: Result<Self>)
        ensures
            if assembled(nodes@, root).wf() {
                result matches Ok(query) && query@ == assembled(nodes@, root)
            } else {
                result matches Err(error) && error == Error::InvalidState
            },
    {
        let ghost model = assembled(nodes@, root);
        if root >= nodes.len() {
            return Err(Error::InvalidState);
        }
        let mut index: usize = 0;
        while index < nodes.len()
            invariant
                index <= nodes@.len(),
                forall|i: int| 0 <= i < index ==> ordered(#[trigger] model.nodes[i], i),
            decreases nodes@.len() - index,
        {
            let valid: bool = match &nodes[index].kind {
                Kind::Phrase(terms) => terms.len() > 0,
                Kind::Not(child) => *child < index,
                Kind::And(left, right) => *left < index && *right < index,
                Kind::Or(left, right) => *left < index && *right < index,
                _ => true,
            };
            assert(valid == ordered(model.nodes[index as int], index as int));
            if !valid {
                return Err(Error::InvalidState);
            }
            index += 1;
        }
        assert(model.wf());
        Ok(Query { nodes, root })
    }

    pub fn profile(&self) -> (profile: u32)
        ensures
            profile == PROFILE_ID,
    {
        PROFILE_ID
    }

    pub fn node_count(&self) -> (count: usize)
        ensures
            count == self@.nodes.len(),
            self@.wf(),
    {
        proof {
            use_type_invariant(self);
        }
        self.nodes.len()
    }

    pub fn root(&self) -> (root: usize)
        ensures
            root == self@.root,
            self@.wf(),
    {
        proof {
            use_type_invariant(self);
        }
        self.root
    }

    /// What a node asks for.
    pub fn node(&self, index: usize) -> (node: &Node)
        requires
            index < self@.nodes.len(),
        ensures
            node@ == self@.nodes[index as int],
            self@.wf(),
            ordered(node@, index as int),
    {
        proof {
            use_type_invariant(self);
        }
        assert(ordered(self@.nodes[index as int], index as int));
        &self.nodes[index]
    }

    /// Whether the query is one term.
    pub fn is_single_term(&self) -> (single: bool)
        ensures
            single == (self@.nodes[self@.root] is Term),
    {
        let root: usize = self.root();
        match &self.node(root).kind {
            Kind::Term(_) => true,
            _ => false,
        }
    }
}

} // verus!
