use zia::ast::{AbstractSyntaxTree, Container, DisplayJoint, MaybeConcept, MightExpand, Pair, SyntaxFactory};
use zia::concepts::{AbstractConcept, StringConcept};
use zia::commands::Definer;
use zia::context::{ConceptNumber, Context, StringConcept as StringIndex};
use zia::errors::ZiaError;
use zia::labelling::{DefinitionDeleter, Labeller, Unlabeller};
use zia::model::{DEFINE, LABEL, REDUCTION};
use zia::reading::{Container as ConceptContainer, FindDefinition, GetLabel, GetNormalForm, Label, MaybeDisconnected};
use zia::reducing::{Display, Expander, Reduce};
use zia::translating::SyntaxFinder;
use zia::writing::{AbstractMaker, DeleteDefinition, DeleteReduction, FindOrInsertDefinition, InsertDefinition, UpdateNormalForm};

#[test]
fn a_new_context_labels_the_built_in_concepts() {
    let cont = Context::new();
    assert_eq!(cont.get_label(DEFINE), Some(":=".to_string()));
    assert_eq!(cont.get_label(REDUCTION), Some("->".to_string()));
    assert_eq!(cont.get_label(LABEL), None);
    assert_eq!(cont.number_of_concepts(), 7);
    assert_eq!(cont.concept_from_label(":="), Some(DEFINE));
    assert_eq!(cont.concept_from_label("->"), Some(REDUCTION));
    assert_eq!(cont.concept_from_label("let"), None);
}

#[test]
fn a_label_is_read_back() {
    let mut cont = Context::new();
    let a = cont.new_labelled_abstract("a").unwrap();
    assert_eq!(a, 7);
    assert_eq!(cont.get_label(a), Some("a".to_string()));
    assert_eq!(cont.concept_from_label("a"), Some(a));
    assert_eq!(cont.relabel(a, "z"), Ok(()));
    assert_eq!(cont.get_label(a), Some("z".to_string()));
    assert_eq!(cont.concept_from_label("z"), Some(a));
    assert_eq!(cont.concept_from_label("a"), None);
    cont.unlabel(a);
    assert_eq!(cont.get_label(a), None);
}

#[test]
fn a_reduction_is_read_back_and_removed() {
    let mut cont = Context::new();
    let a = cont.new_labelled_abstract("a").unwrap();
    let b = cont.new_labelled_abstract("b").unwrap();
    let c = cont.new_labelled_abstract("c").unwrap();
    assert_eq!(cont.update_normal_form(a, b), Ok(()));
    assert_eq!(cont.get_normal_form(a), Some(b));
    assert_eq!(cont.get_normal_form(b), None);
    assert_eq!(cont.update_normal_form(a, b), Err(ZiaError::RedundantReduction));
    assert_eq!(cont.update_normal_form(b, a), Err(ZiaError::CyclicReduction));
    assert_eq!(cont.update_normal_form(a, a), Err(ZiaError::CyclicReduction));
    assert_eq!(cont.update_normal_form(b, c), Ok(()));
    assert_eq!(cont.get_normal_form(a), Some(c));
    assert!(cont.chain_passes_through(a, c));
    assert!(!cont.chain_passes_through(c, a));
    cont.delete_reduction(a);
    assert_eq!(cont.get_normal_form(a), None);
    assert_eq!(cont.get_normal_form(b), Some(c));
}

#[test]
fn the_labellee_of_a_string_concept_is_found() {
    let mut cont = Context::new();
    let a = cont.new_labelled_abstract("a").unwrap();
    let s = cont.get_string_concept("a").unwrap();
    assert_eq!(cont.get_labellee(s), Some(a));
}

#[test]
fn a_definition_is_found_again() {
    let mut cont = Context::new();
    let a = cont.new_labelled_abstract("a").unwrap();
    let b = cont.new_labelled_abstract("b").unwrap();
    assert_eq!(cont.find_definition(a, b), None);
    let d = cont.find_or_insert_definition(a, b).unwrap();
    assert_eq!(cont.find_definition(a, b), Some(d));
    assert_eq!(cont.find_or_insert_definition(a, b), Ok(d));
    assert!(ConceptContainer::contains(&cont, d, a));
    assert!(ConceptContainer::contains(&cont, d, b));
    assert!(!ConceptContainer::contains(&cont, a, d));
    assert_eq!(cont.display(d), "a b");
    assert_eq!(cont.to_ast(d).to_string(), "a b");
    cont.delete_definition(d);
    assert_eq!(cont.find_definition(a, b), None);
}

#[test]
fn definitions_that_contain_themselves_are_refused() {
    let mut cont = Context::new();
    let x = cont.new_labelled_abstract("x").unwrap();
    let y = cont.new_labelled_abstract("y").unwrap();
    assert_eq!(cont.insert_definition(x, x, y), Err(ZiaError::InfiniteDefinition));
    let d = cont.find_or_insert_definition(x, y).unwrap();
    let z = cont.new_labelled_abstract("z").unwrap();
    assert_eq!(cont.insert_definition(x, d, z), Err(ZiaError::InfiniteDefinition));
    assert_eq!(cont.update_normal_form(z, x), Ok(()));
    assert_eq!(cont.check_reductions(x, z), Err(ZiaError::ExpandingReduction));
    assert_eq!(cont.check_reductions(y, z), Ok(()));
    assert_eq!(cont.insert_definition(x, z, y), Err(ZiaError::ExpandingReduction));
    assert_eq!(cont.insert_definition(y, z, z), Ok(()));
    assert_eq!(cont.display(y), "y");
    assert_eq!(cont.expand(&cont.to_ast(y)).to_string(), "z z");
}

#[test]
fn deleting_a_definition_forgets_what_nothing_uses() {
    let mut cont = Context::new();
    let a = cont.new_labelled_abstract("a").unwrap();
    let b = cont.new_labelled_abstract("b").unwrap();
    let c = cont.new_labelled_abstract("c").unwrap();
    assert_eq!(cont.insert_definition(c, a, b), Ok(()));
    assert!(!cont.is_disconnected(a));
    cont.cleanly_delete_definition(c);
    assert!(cont.is_disconnected(a));
    assert_eq!(cont.get_label(a), None);
    assert_eq!(cont.get_label(b), None);
    assert_eq!(cont.get_label(c), None);
}

#[test]
fn try_delete_concept_keeps_used_labels() {
    let mut cont = Context::new();
    let a = cont.new_labelled_abstract("a").unwrap();
    let b = cont.new_labelled_abstract("b").unwrap();
    assert_eq!(cont.update_normal_form(a, b), Ok(()));
    cont.try_delete_concept(a);
    assert_eq!(cont.get_label(a), Some("a".to_string()));
    let c = cont.new_labelled_abstract("c").unwrap();
    cont.try_delete_concept(c);
    assert_eq!(cont.get_label(c), None);
}

#[test]
fn reduction_of_syntax_follows_rules() {
    let mut cont = Context::new();
    let a = cont.new_labelled_abstract("a").unwrap();
    let b = cont.new_labelled_abstract("b").unwrap();
    let c = cont.find_or_insert_definition(a, b).unwrap();
    assert_eq!(cont.label(c, "c"), Ok(()));
    assert_eq!(cont.update_normal_form(a, b), Ok(()));
    let ast = cont.to_ast(c);
    assert_eq!(ast.to_string(), "c");
    assert_eq!(cont.reduce(&ast).unwrap().to_string(), "b b");
    assert_eq!(cont.recursively_reduce(&ast).to_string(), "b b");
    assert_eq!(cont.expand(&ast).to_string(), "a b");
    assert_eq!(cont.reduce_concept(b).map(|t| t.to_string()), None);
}

#[test]
fn strings_are_displayed_in_quotes() {
    let mut cont = Context::new();
    let s = cont.get_string_concept(":=").unwrap();
    assert_eq!(cont.display(s), "\":=\"");
    assert_eq!(cont.display(DEFINE), ":=");
    assert_eq!(cont.new_abstract(), 7);
}

#[test]
fn syntax_trees_join_and_compare_by_text() {
    let a = AbstractSyntaxTree::new("a", Some(7));
    let b = AbstractSyntaxTree::new("b", None);
    let ab = AbstractSyntaxTree::from_pair("a b", None, &a, &b);
    assert_eq!(ab.to_string(), "a b");
    assert_eq!(ab.display_joint(), "(a b)");
    assert_eq!(a.display_joint(), "a");
    assert_eq!(a.get_concept(), Some(7));
    assert!(ab.contains(&b));
    assert!(!a.contains(&b));
    assert!(ab.eq(&ab.clone()));
    let (left, right) = ab.get_expansion().unwrap();
    assert_eq!(left.to_string(), "a");
    assert_eq!(right.get_concept(), None);
    assert!(a.get_expansion().is_none());
    let nested = AbstractSyntaxTree::from_pair("(a b) b", None, &ab, &b);
    assert!(nested.contains(&a));
}

#[test]
fn combining_finds_the_defined_concept() {
    let mut cont = Context::new();
    let a = cont.new_labelled_abstract("a").unwrap();
    let b = cont.new_labelled_abstract("b").unwrap();
    let c = cont.find_or_insert_definition(a, b).unwrap();
    let ast = cont.contract_pair(&cont.to_ast(a), &cont.to_ast(b));
    assert_eq!(ast.get_concept(), Some(c));
    assert_eq!(ast.to_string(), "a b");
    assert_eq!(cont.label(c, "c"), Ok(()));
    let ast = cont.contract_pair(&cont.to_ast(a), &cont.to_ast(b));
    assert_eq!(ast.to_string(), "c");
}

#[test]
fn concepts_are_made_fresh() {
    let abstract_concept = AbstractConcept::new_ref();
    assert!(abstract_concept.definition.is_none());
    assert!(abstract_concept.reduces_to.is_none());
    let string_concept = StringConcept::new_ref("hello");
    assert_eq!(string_concept.get_string(), "hello");
    assert!(string_concept.concrete_concept.reduces_from.is_empty());
}

#[test]
fn every_error_has_its_message() {
    assert_eq!(ZiaError::RedundantReduction.to_string(), "That reduction rule already exists.");
    assert_eq!(ZiaError::RedundantDefinition.to_string(), "That definition already exists.");
    assert_eq!(
        ZiaError::RedundantRefactor.to_string(),
        "Relabelling something that doesn't yet exist has no effect."
    );
    assert_eq!(ZiaError::NotAProgram.to_string(), "No program exists for this syntax.");
    assert_eq!(ZiaError::BadDefinition.to_string(), "Cannot define expressions.");
    assert_eq!(
        ZiaError::CyclicReduction.to_string(),
        "Cannot allow a chain of reduction rules to loop."
    );
    assert_eq!(
        ZiaError::ExpandingReduction.to_string(),
        "Cannot reduce a concept to an expression containing itself."
    );
    assert_eq!(
        ZiaError::InfiniteDefinition.to_string(),
        "Cannot define a concept as an expression containing itself."
    );
    assert_eq!(
        ZiaError::EmptyParentheses.to_string(),
        "Parentheses need to contain a symbol or expression."
    );
    assert_eq!(
        ZiaError::AmbiguousExpression.to_string(),
        "Ambiguity due to lack of precedence or associativity defined for the symbols in that expression."
    );
    assert_eq!(
        ZiaError::DefinitionCollision.to_string(),
        "Cannot define a used symbol as another used symbol or expression."
    );
}
