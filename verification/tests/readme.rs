use zia::ast::{AbstractSyntaxTree, Pair, SyntaxFactory};
use zia::commands::{Definer, Execute};
use zia::concepts::{AbstractConcept, Concept, GetDefinition, GetReduction, SetDefinition, SetReduction, StringConcept};
use zia::context::{ConceptNumber, ConceptReader, Context, StringConcept as StringIndex};
use zia::model::DEFINE;
use zia::errors::ZiaError;
use zia::labelling::Labeller;
use zia::reducing::Display;
use zia::translating::{is_parsable, SyntaxFinder};
use zia::writing::{AbstractMaker, FindOrInsertDefinition, InsertDefinition, UpdateNormalForm};

fn run(cont: &mut Context, command: &str) -> String {
    assert!(is_parsable(command));
    cont.execute(command)
}

#[test]
fn let_sets_a_reduction_rule() {
    let mut cont = Context::new();
    assert_eq!(run(&mut cont, "b ->"), "b");
    assert_eq!(run(&mut cont, "let (a (-> b))"), "");
    assert_eq!(run(&mut cont, "a ->"), "b");
}

#[test]
fn let_repeating_a_reduction_rule_is_redundant() {
    let mut cont = Context::new();
    assert_eq!(run(&mut cont, "let (a (-> b))"), "");
    assert_eq!(run(&mut cont, "let (a (-> b))"), "That reduction rule already exists.");
    assert_eq!(run(&mut cont, "a ->"), "b");
}

#[test]
fn let_changes_and_removes_a_reduction_rule() {
    let mut cont = Context::new();
    assert_eq!(run(&mut cont, "let (a (-> b))"), "");
    assert_eq!(run(&mut cont, "let (a (-> c))"), "");
    assert_eq!(run(&mut cont, "a ->"), "c");
    assert_eq!(run(&mut cont, "let (a (-> a))"), "");
    assert_eq!(run(&mut cont, "a ->"), "a");
}

#[test]
fn let_defines_and_relabels() {
    let mut cont = Context::new();
    assert_eq!(run(&mut cont, "let (c (:= (a b)))"), "");
    assert_eq!(run(&mut cont, "c :="), "a b");
    assert_eq!(run(&mut cont, "a :="), "a");
    assert_eq!(run(&mut cont, "let (a (-> b))"), "");
    assert_eq!(run(&mut cont, "let (e (:= b))"), "");
    assert_eq!(run(&mut cont, "c :="), "a e");
    assert_eq!(run(&mut cont, "a ->"), "e");
    assert_eq!(run(&mut cont, "c ->"), "e e");
}

#[test]
fn a_reduction_of_a_pair_whose_parts_reduce_is_refused() {
    let mut cont = Context::new();
    assert_eq!(run(&mut cont, "let (c (:= (a b)))"), "");
    assert_eq!(run(&mut cont, "let (a (-> b))"), "");
    assert_eq!(run(&mut cont, "let (e (:= b))"), "");
    assert_eq!(
        run(&mut cont, "let (c (-> f))"),
        ZiaError::MultipleReductionPaths.to_string()
    );
    assert_ne!(ZiaError::MultipleReductionPaths.to_string(), "");
    assert_eq!(run(&mut cont, "c ->"), "e e");
}

#[test]
fn let_refuses_definitions_and_reductions_that_contain_themselves() {
    let mut cont = Context::new();
    assert_eq!(
        run(&mut cont, "let (i (:= (i j)))"),
        "Cannot define a concept as an expression containing itself."
    );
    let mut cont = Context::new();
    assert_eq!(
        run(&mut cont, "let (i (-> (i j)))"),
        "Cannot reduce a concept to an expression containing itself."
    );
    assert_eq!(run(&mut cont, "i ->"), "i");
}

#[test]
fn a_pair_of_a_pair_is_displayed_with_its_own_parentheses() {
    let mut cont = Context::new();
    let a = cont.new_labelled_abstract("a").unwrap();
    let b = cont.new_labelled_abstract("b").unwrap();
    let c = cont.new_labelled_abstract("c").unwrap();
    let ab = cont.find_or_insert_definition(a, b).unwrap();
    let abc = cont.find_or_insert_definition(ab, c).unwrap();
    assert_eq!(cont.display(abc), "(a b) c");
    let bc = cont.find_or_insert_definition(b, c).unwrap();
    let a_bc = cont.find_or_insert_definition(a, bc).unwrap();
    assert_eq!(cont.display(a_bc), "a (b c)");
    let ab_bc = cont.find_or_insert_definition(ab, bc).unwrap();
    assert_eq!(cont.display(ab_bc), "(a b) (b c)");
}

#[test]
fn only_abstract_concepts_take_definitions_and_reductions() {
    let mut abs = Concept::Abstract(AbstractConcept::new_ref());
    assert_eq!(abs.set_definition(3, 4), Ok(()));
    assert_eq!(abs.get_definition(), Some((3, 4)));
    assert_eq!(abs.make_reduce_to(5), Ok(()));
    assert_eq!(abs.get_reduction(), Some(5));
    assert_eq!(abs.get_definition(), Some((3, 4)));
    let mut text = Concept::String(StringConcept::new_ref("s"));
    assert_eq!(text.set_definition(3, 4), Err(ZiaError::SettingDefinitionOfConcrete));
    assert_eq!(text.get_definition(), None);
    assert_eq!(text.make_reduce_to(5), Err(ZiaError::ConcreteReduction));
    assert_eq!(text.get_reduction(), None);
}

#[test]
fn string_concepts_take_no_reduction_and_no_definition() {
    let mut cont = Context::new();
    let s = cont.get_string_concept(":=").unwrap();
    assert_eq!(cont.update_normal_form(s, DEFINE), Err(ZiaError::ConcreteReduction));
    let a = cont.new_labelled_abstract("a").unwrap();
    let b = cont.new_labelled_abstract("b").unwrap();
    let n = cont.number_of_concepts();
    assert_eq!(cont.insert_definition(s, a, b), Err(ZiaError::SettingDefinitionOfConcrete));
    assert_eq!(cont.number_of_concepts(), n);
}

#[test]
fn labelling_adds_a_label_definition_only_once() {
    let mut cont = Context::new();
    assert_eq!(cont.number_of_concepts(), 7);
    let x = cont.new_abstract();
    assert_eq!(x, 7);
    assert_eq!(cont.label(x, "x"), Ok(()));
    assert_eq!(cont.number_of_concepts(), 10);
    assert_eq!(cont.get_string_concept("x"), Some(9));
    assert_eq!(cont.label(x, "y"), Ok(()));
    assert_eq!(cont.number_of_concepts(), 11);
    assert_eq!(cont.get_string_concept("y"), Some(10));
    assert_eq!(cont.get_string_concept("z"), None);
}

#[test]
fn defining_a_new_symbol_as_a_pair_of_new_symbols_makes_nine_concepts() {
    let mut cont = Context::new();
    let a = AbstractSyntaxTree::new("a", None);
    let b = AbstractSyntaxTree::new("b", None);
    let before = AbstractSyntaxTree::from_pair("a b", None, &a, &b);
    let after = AbstractSyntaxTree::new("c", None);
    assert_eq!(cont.define(&before, &after), Ok(()));
    assert_eq!(cont.number_of_concepts(), 16);
    assert_eq!(cont.concept_from_label("a"), Some(7));
    assert_eq!(cont.concept_from_label("b"), Some(10));
    assert_eq!(cont.concept_from_label("c"), Some(13));
    assert_eq!(cont.read_concept(13).get_definition(), Some((7, 10)));
}
