//! Trained models: the scalar-loss booster and the multiclass booster.
//!
//! A model holds its trees, the bin table it was trained with, the
//! categorical encoding (scalar models only), the initial score(s) and the
//! learning rate; `f64` quantities are held as bit patterns. Prediction
//! arithmetic is floating-point and happens outside this crate; the tree walk
//! itself is in [`crate::tree`].

use vstd::prelude::*;
use crate::binning::BinTable;
use crate::categorical::CategoricalEncoding;
use crate::loss::Loss;
use crate::model::error::ModelError;
use crate::model::io::{
    categorical_view, deserialize, deserialize_multiclass, deserialized, deserialized_multiclass,
    serialize, serialize_multiclass, trees_view,
};
use crate::model::layout::{ser_model, ModelView};
use crate::tree::{Tree, TreeView};

verus! {

/// Feature importance measures.
#[derive(Debug, Clone, Copy, PartialEq, Eq, Default)]
pub enum ImportanceKind {
    /// Sum of split gains.
    #[default]
    Gain,
    /// Sum of covered sample counts.
    Cover,
    /// Number of splits.
    Frequency,
}

/// A trained gradient-boosting model with a scalar loss.
#[derive(Debug)]
pub struct Booster<L> {
    loss: L,
    trees: Vec<Tree>,
    table: BinTable,
    init_score: u64,
    learning_rate: u64,
    encoding: Option<CategoricalEncoding>,
    cat_features: Vec<u32>,
    best_iteration: usize,
    eval_history: Vec<u64>,
}

impl<L: Loss> Booster<L> {
    /// What the model file of this booster holds.
    pub closed spec fn model_view(&self) -> ModelView {
        ModelView {
            loss_name: L::spec_name(),
            init_scores: seq![self.init_score],
            learning_rate: self.learning_rate,
            trees: trees_view(self.trees@),
            max_bins: self.table@.max_bins,
            boundaries: self.table@.boundaries,
            categorical: categorical_view(self.encoding, self.cat_features@),
        }
    }

    /// A scalar model file records the loss's name and one initial score.
    pub proof fn lemma_model_view_fixed_parts(&self)
        ensures
            self.model_view().loss_name == L::spec_name(),
            self.model_view().init_scores.len() == 1,
    {
    }

    /// Rounds actually used.
    pub closed spec fn spec_best_iteration(&self) -> nat {
        self.best_iteration as nat
    }

    /// Validation loss history (bits).
    pub closed spec fn spec_eval_history(&self) -> Seq<u64> {
        self.eval_history@
    }

    /// The loss the booster was built with.
    pub closed spec fn spec_loss(&self) -> L {
        self.loss
    }

    /// The recorded categorical feature indices.
    pub closed spec fn spec_cat_features(&self) -> Seq<u32> {
        self.cat_features@
    }

    /// Assembles a booster. `best_iteration` is the tree count and the
    /// validation history is empty, as for a loaded model.
    pub fn from_parts(
        loss: L,
        trees: Vec<Tree>,
        table: BinTable,
        init_score: u64,
        learning_rate: u64,
        encoding: Option<CategoricalEncoding>,
        cat_features: Vec<u32>,
    ) -> (b: Booster<L>)
        ensures
            b.model_view() == (ModelView {
                loss_name: L::spec_name(),
                init_scores: seq![init_score],
                learning_rate,
                trees: trees_view(trees@),
                max_bins: table@.max_bins,
                boundaries: table@.boundaries,
                categorical: categorical_view(encoding, cat_features@),
            }),
            b.spec_best_iteration() == trees@.len(),
            b.spec_eval_history() == Seq::<u64>::empty(),
            b.spec_loss() == loss,
            b.spec_cat_features() == cat_features@,
    {
        let best_iteration = trees.len();
        Booster {
            loss,
            trees,
            table,
            init_score,
            learning_rate,
            encoding,
            cat_features,
            best_iteration,
            eval_history: Vec::new(),
        }
    }

    /// Attaches the training record: rounds used and validation history.
    pub fn with_training_record(self, best_iteration: usize, eval_history: Vec<u64>) -> (b: Booster<L>)
        ensures
            b.model_view() == self.model_view(),
            b.spec_loss() == self.spec_loss(),
            b.spec_cat_features() == self.spec_cat_features(),
            b.spec_best_iteration() == best_iteration,
            b.spec_eval_history() == eval_history@,
    {
        Booster { best_iteration, eval_history, ..self }
    }

    /// Number of trees.
    pub fn num_trees(&self) -> (n: usize)
        ensures
            n == self.model_view().trees.len(),
    {
        self.trees.len()
    }

    /// The initial score (bits).
    pub fn init_score(&self) -> (s: u64)
        ensures
            seq![s] == self.model_view().init_scores,
    {
        self.init_score
    }

    /// The loss.
    pub fn loss(&self) -> (l: &L)
        ensures
            *l == self.spec_loss(),
    {
        &self.loss
    }

    /// The model file bytes.
    pub fn serialize(&self) -> (out: Vec<u8>)
        ensures
            out@ == ser_model(self.model_view()),
    {
        serialize(self)
    }

    /// Reads a model from bytes; `loss` must match the loss the file records.
    pub fn deserialize(bytes: &[u8], loss: L) -> (res: Result<Self, ModelError>)
        ensures
            deserialized(bytes@, res),
    {
        deserialize(bytes, loss)
    }

    /// The loss name recorded in the model file.
    pub fn loss_name(&self) -> (r: &'static str)
        ensures
            r@ == self.model_view().loss_name,
    {
        self.loss.name()
    }

    /// Rounds actually used (early stopping may cut it below the requested count).
    pub fn best_iteration(&self) -> (n: usize)
        ensures
            n == self.spec_best_iteration(),
    {
        self.best_iteration
    }

    /// Validation loss history (bits; empty without early stopping).
    pub fn eval_history(&self) -> (h: &Vec<u64>)
        ensures
            h@ == self.spec_eval_history(),
    {
        &self.eval_history
    }

    /// The bin table.
    pub fn bin_table(&self) -> (t: &BinTable)
        ensures
            t@.max_bins == self.model_view().max_bins,
            t@.boundaries == self.model_view().boundaries,
    {
        &self.table
    }

    /// The categorical encoding, if the model has categorical features.
    pub fn categorical_encoding(&self) -> (e: Option<&CategoricalEncoding>)
        ensures
            e is Some <==> self.model_view().categorical is Some,
            e matches Some(enc) ==> self.model_view().categorical->0.encodings == enc@,
    {
        match &self.encoding {
            Some(e) => Some(e),
            None => None,
        }
    }

    /// The trees.
    pub fn trees(&self) -> (t: &Vec<Tree>)
        ensures
            trees_view(t@) == self.model_view().trees,
    {
        &self.trees
    }

    /// The learning rate (bits).
    pub fn learning_rate(&self) -> (r: u64)
        ensures
            r == self.model_view().learning_rate,
    {
        self.learning_rate
    }

    /// Indices of the categorical features (empty without encoding).
    pub fn cat_features(&self) -> (f: &Vec<u32>)
        ensures
            f@ == self.spec_cat_features(),
            self.model_view().categorical matches Some(c) ==> f@ == c.features,
    {
        &self.cat_features
    }
}

/// A trained multiclass softmax model: one tree sequence per class.
#[derive(Debug)]
pub struct MulticlassBooster {
    n_classes: usize,
    trees: Vec<Vec<Tree>>,
    table: BinTable,
    init_scores: Vec<u64>,
    learning_rate: u64,
    best_iteration: usize,
    eval_history: Vec<u64>,
}

/// The per-class tree sequences.
pub open spec fn class_trees_view(ts: Seq<Vec<Tree>>) -> Seq<Seq<TreeView>> {
    ts.map_values(|v: Vec<Tree>| trees_view(v@))
}

/// A prefix of the classes holds no more trees than all of them.
proof fn lemma_flatten_prefix_len(cv: Seq<Seq<TreeView>>, k: int)
    requires
        0 <= k <= cv.len(),
    ensures
        cv.subrange(0, k).flatten().len() <= cv.flatten().len(),
    decreases cv.len() - k,
{
    if k == cv.len() {
        assert(cv.subrange(0, k) =~= cv);
    } else {
        lemma_flatten_prefix_len(cv, k + 1);
        assert(cv.subrange(0, k + 1) =~= cv.subrange(0, k).push(cv[k]));
        cv.subrange(0, k).lemma_flatten_push(cv[k]);
    }
}

impl MulticlassBooster {
    /// One tree sequence and one initial score per class; the trees of all
    /// classes together fit in memory.
    #[verifier::type_invariant]
    spec fn wf(self) -> bool {
        &&& self.init_scores@.len() == self.n_classes
        &&& self.trees@.len() == self.n_classes
        &&& class_trees_view(self.trees@).flatten().len() <= usize::MAX
    }

    /// What the model file of this booster holds (trees class-major).
    pub closed spec fn model_view(&self) -> ModelView {
        ModelView {
            loss_name: crate::model::format::multiclass_loss_name(),
            init_scores: self.init_scores@,
            learning_rate: self.learning_rate,
            trees: class_trees_view(self.trees@).flatten(),
            max_bins: self.table@.max_bins,
            boundaries: self.table@.boundaries,
            categorical: None,
        }
    }

    /// A multiclass model file records the softmax loss name and no
    /// categorical section.
    pub proof fn lemma_model_view_fixed_parts(&self)
        ensures
            self.model_view().loss_name == crate::model::format::multiclass_loss_name(),
            self.model_view().categorical is None,
            self.model_view().trees == self.spec_class_trees().flatten(),
    {
    }

    /// The per-class tree sequences.
    pub closed spec fn spec_class_trees(&self) -> Seq<Seq<TreeView>> {
        class_trees_view(self.trees@)
    }

    /// Number of classes.
    pub closed spec fn spec_n_classes(&self) -> nat {
        self.n_classes as nat
    }

    /// Rounds actually used per class.
    pub closed spec fn spec_best_iteration(&self) -> nat {
        self.best_iteration as nat
    }

    /// Validation loss history (bits).
    pub closed spec fn spec_eval_history(&self) -> Seq<u64> {
        self.eval_history@
    }

    /// Assembles a multiclass booster; `best_iteration` is the first class's
    /// tree count and the validation history is empty.
    pub fn from_parts(
        n_classes: usize,
        trees: Vec<Vec<Tree>>,
        table: BinTable,
        init_scores: Vec<u64>,
        learning_rate: u64,
    ) -> (b: MulticlassBooster)
        requires
            init_scores@.len() == n_classes,
            trees@.len() == n_classes,
            class_trees_view(trees@).flatten().len() <= usize::MAX,
        ensures
            b.model_view() == (ModelView {
                loss_name: crate::model::format::multiclass_loss_name(),
                init_scores: init_scores@,
                learning_rate,
                trees: class_trees_view(trees@).flatten(),
                max_bins: table@.max_bins,
                boundaries: table@.boundaries,
                categorical: None,
            }),
            b.spec_class_trees() == class_trees_view(trees@),
            b.spec_n_classes() == n_classes,
            b.spec_best_iteration() == (if trees@.len() == 0 { 0 } else { trees@[0]@.len() }),
            b.spec_eval_history() == Seq::<u64>::empty(),
    {
        let best_iteration = if trees.len() == 0 {
            0
        } else {
            trees[0].len()
        };
        MulticlassBooster {
            n_classes,
            trees,
            table,
            init_scores,
            learning_rate,
            best_iteration,
            eval_history: Vec::new(),
        }
    }

    /// Attaches the training record: rounds used and validation history.
    pub fn with_training_record(self, best_iteration: usize, eval_history: Vec<u64>) -> (b: MulticlassBooster)
        ensures
            b.model_view() == self.model_view(),
            b.spec_class_trees() == self.spec_class_trees(),
            b.spec_n_classes() == self.spec_n_classes(),
            b.spec_best_iteration() == best_iteration,
            b.spec_eval_history() == eval_history@,
    {
        proof {
            use_type_invariant(&self);
        }
        MulticlassBooster { best_iteration, eval_history, ..self }
    }

    /// Number of classes.
    pub fn n_classes(&self) -> (n: usize)
        ensures
            n == self.spec_n_classes(),
            n == self.model_view().init_scores.len(),
            n == self.spec_class_trees().len(),
    {
        proof {
            use_type_invariant(self);
        }
        self.n_classes
    }

    /// Trees per class (the first class's count).
    pub fn num_trees_per_class(&self) -> (n: usize)
        ensures
            n == (if self.spec_class_trees().len() == 0 { 0 } else { self.spec_class_trees()[0].len() }),
    {
        if self.trees.len() == 0 {
            0
        } else {
            self.trees[0].len()
        }
    }

    /// Total number of trees over all classes.
    pub fn num_trees(&self) -> (n: usize)
        ensures
            n == self.model_view().trees.len(),
    {
        proof {
            use_type_invariant(self);
        }
        let mut total: usize = 0;
        let mut k: usize = 0;
        let ghost cv = class_trees_view(self.trees@);
        while k < self.trees.len()
            invariant
                k <= self.trees@.len(),
                cv == class_trees_view(self.trees@),
                cv.flatten().len() <= usize::MAX,
                total == cv.subrange(0, k as int).flatten().len(),
            decreases self.trees@.len() - k,
        {
            proof {
                assert(cv.subrange(0, k + 1) =~= cv.subrange(0, k as int).push(cv[k as int]));
                cv.subrange(0, k as int).lemma_flatten_push(cv[k as int]);
                assert(cv[k as int].len() == self.trees@[k as int]@.len());
                lemma_flatten_prefix_len(cv, k + 1);
            }
            total = total + self.trees[k].len();
            k = k + 1;
        }
        assert(cv.subrange(0, k as int) =~= cv);
        total
    }

    /// Initial logit of each class (bits).
    pub fn init_scores(&self) -> (s: &Vec<u64>)
        ensures
            s@ == self.model_view().init_scores,
    {
        &self.init_scores
    }

    /// The learning rate (bits).
    pub fn learning_rate(&self) -> (r: u64)
        ensures
            r == self.model_view().learning_rate,
    {
        self.learning_rate
    }

    /// Rounds actually used per class.
    pub fn best_iteration(&self) -> (n: usize)
        ensures
            n == self.spec_best_iteration(),
    {
        self.best_iteration
    }

    /// Validation loss history (bits; empty without early stopping).
    pub fn eval_history(&self) -> (h: &Vec<u64>)
        ensures
            h@ == self.spec_eval_history(),
    {
        &self.eval_history
    }

    /// The bin table.
    pub fn bin_table(&self) -> (t: &BinTable)
        ensures
            t@.max_bins == self.model_view().max_bins,
            t@.boundaries == self.model_view().boundaries,
    {
        &self.table
    }

    /// The model file bytes.
    pub fn serialize(&self) -> (out: Vec<u8>)
        ensures
            out@ == ser_model(self.model_view()),
    {
        serialize_multiclass(self)
    }

    /// Reads a multiclass model from bytes.
    pub fn deserialize(bytes: &[u8]) -> (res: Result<Self, ModelError>)
        ensures
            deserialized_multiclass(bytes@, res),
    {
        deserialize_multiclass(bytes)
    }

    /// The per-class trees.
    pub fn class_trees(&self) -> (t: &Vec<Vec<Tree>>)
        ensures
            class_trees_view(t@) == self.spec_class_trees(),
    {
        &self.trees
    }
}

} // verus!
