use zia::commands::Execute;
use zia::context::Context;
use zia::errors::ZiaError;
use zia::translating::is_parsable;

fn run(cont: &mut Context, command: &str) -> String {
    assert!(is_parsable(command));
    cont.execute(command)
}

fn message(e: ZiaError) -> String {
    e.to_string()
}

#[test]
fn a_reduction_rule_is_printed() {
    let mut cont = Context::new();
    assert_eq!(run(&mut cont, "a (-> b)"), "");
    assert_eq!(run(&mut cont, "a ->"), "b");
    assert_eq!(run(&mut cont, "b ->"), "b");
}

#[test]
fn a_repeated_reduction_rule_is_redundant() {
    let mut cont = Context::new();
    assert_eq!(run(&mut cont, "a (-> b)"), "");
    assert_eq!(
        run(&mut cont, "a (-> b)"),
        message(ZiaError::RedundantReduction)
    );
    assert_eq!(run(&mut cont, "a ->"), "b");
}

#[test]
fn a_reduction_rule_can_be_changed() {
    let mut cont = Context::new();
    assert_eq!(run(&mut cont, "a (-> b)"), "");
    assert_eq!(run(&mut cont, "a (-> c)"), "");
    assert_eq!(run(&mut cont, "a ->"), "c");
    assert_eq!(run(&mut cont, "b ->"), "b");
}

#[test]
fn reducing_a_concept_to_itself_removes_its_rule() {
    let mut cont = Context::new();
    assert_eq!(run(&mut cont, "a (-> b)"), "");
    assert_eq!(run(&mut cont, "a (-> a)"), "");
    assert_eq!(run(&mut cont, "a ->"), "a");
    assert_eq!(
        run(&mut cont, "a (-> a)"),
        message(ZiaError::RedundantReduction)
    );
}

#[test]
fn reduction_chains_are_followed_to_their_end() {
    let mut cont = Context::new();
    assert_eq!(run(&mut cont, "a (-> b)"), "");
    assert_eq!(run(&mut cont, "b (-> c)"), "");
    assert_eq!(run(&mut cont, "a ->"), "c");
}

#[test]
fn a_loop_of_reductions_is_refused() {
    let mut cont = Context::new();
    assert_eq!(run(&mut cont, "a (-> b)"), "");
    assert_eq!(run(&mut cont, "b (-> c)"), "");
    assert_eq!(
        run(&mut cont, "c (-> a)"),
        message(ZiaError::CyclicReduction)
    );
    assert_eq!(run(&mut cont, "c ->"), "c");
}

#[test]
fn overriding_into_a_loop_is_refused() {
    let mut cont = Context::new();
    assert_eq!(run(&mut cont, "a (-> b)"), "");
    assert_eq!(run(&mut cont, "b (-> c)"), "");
    assert_eq!(
        run(&mut cont, "a (-> b)"),
        message(ZiaError::RedundantReduction)
    );
    assert_eq!(
        run(&mut cont, "b (-> a)"),
        message(ZiaError::CyclicReduction)
    );
    assert_eq!(run(&mut cont, "a ->"), "c");
}

#[test]
fn a_definition_is_printed() {
    let mut cont = Context::new();
    assert_eq!(run(&mut cont, "c (:= (a b))"), "");
    assert_eq!(run(&mut cont, "c :="), "a b");
    assert_eq!(run(&mut cont, "a :="), "a");
}

#[test]
fn a_concept_can_be_relabelled() {
    let mut cont = Context::new();
    assert_eq!(run(&mut cont, "c (:= (a b))"), "");
    assert_eq!(run(&mut cont, "e (:= b)"), "");
    assert_eq!(run(&mut cont, "c :="), "a e");
}

#[test]
fn expressions_reduce_by_their_parts() {
    let mut cont = Context::new();
    assert_eq!(run(&mut cont, "c (:= (a b))"), "");
    assert_eq!(run(&mut cont, "a (-> b)"), "");
    assert_eq!(run(&mut cont, "c ->"), "b b");
    assert_eq!(run(&mut cont, "(a b) ->"), "b b");
}

#[test]
fn a_pair_that_reduces_to_a_labelled_definition_is_written_with_its_label() {
    let mut cont = Context::new();
    assert_eq!(run(&mut cont, "c (:= (a b))"), "");
    assert_eq!(run(&mut cont, "d (-> a)"), "");
    assert_eq!(run(&mut cont, "(d b) ->"), "c");
}

#[test]
fn a_concept_cannot_be_defined_by_itself() {
    let mut cont = Context::new();
    assert_eq!(
        run(&mut cont, "i (:= (i j))"),
        message(ZiaError::InfiniteDefinition)
    );
}

#[test]
fn a_concept_cannot_reduce_to_an_expression_of_itself() {
    let mut cont = Context::new();
    assert_eq!(
        run(&mut cont, "i (-> (i j))"),
        message(ZiaError::ExpandingReduction)
    );
}

#[test]
fn a_definition_whose_part_reduces_into_it_is_refused() {
    let mut cont = Context::new();
    assert_eq!(run(&mut cont, "a (-> e)"), "");
    assert_eq!(
        run(&mut cont, "e (:= (a d))"),
        message(ZiaError::ExpandingReduction)
    );
}

#[test]
fn repeating_a_definition_is_redundant() {
    let mut cont = Context::new();
    assert_eq!(run(&mut cont, "c (:= (a b))"), "");
    assert_eq!(
        run(&mut cont, "c (:= (a b))"),
        message(ZiaError::RedundantDefinition)
    );
}

#[test]
fn two_used_symbols_cannot_be_made_one() {
    let mut cont = Context::new();
    assert_eq!(run(&mut cont, "a (-> b)"), "");
    assert_eq!(
        run(&mut cont, "a (:= b)"),
        message(ZiaError::DefinitionCollision)
    );
}

#[test]
fn relabelling_an_unknown_symbol_has_no_effect() {
    let mut cont = Context::new();
    assert_eq!(
        run(&mut cont, "a (:= b)"),
        message(ZiaError::RedundantRefactor)
    );
}

#[test]
fn expressions_cannot_be_defined() {
    let mut cont = Context::new();
    assert_eq!(
        run(&mut cont, "(a b) (:= c)"),
        message(ZiaError::BadDefinition)
    );
}

#[test]
fn a_definition_can_be_removed() {
    let mut cont = Context::new();
    assert_eq!(run(&mut cont, "c (:= (a b))"), "");
    assert_eq!(run(&mut cont, "c (:= c)"), "");
    assert_eq!(run(&mut cont, "c :="), "c");
}

#[test]
fn removing_a_missing_definition_is_redundant() {
    let mut cont = Context::new();
    assert_eq!(run(&mut cont, "a (-> b)"), "");
    assert_eq!(
        run(&mut cont, "a (:= a)"),
        message(ZiaError::RedundantDefinition)
    );
}

#[test]
fn an_expression_can_be_labelled() {
    let mut cont = Context::new();
    assert_eq!(run(&mut cont, "c (:= (a b))"), "");
    assert_eq!(run(&mut cont, "d (:= c)"), "");
    assert_eq!(run(&mut cont, "(a b) :="), "a b");
    assert_eq!(run(&mut cont, "d :="), "a b");
}

#[test]
fn empty_parentheses_are_refused() {
    let mut cont = Context::new();
    assert_eq!(run(&mut cont, "()"), message(ZiaError::EmptyParentheses));
}

#[test]
fn three_tokens_are_ambiguous() {
    let mut cont = Context::new();
    assert_eq!(
        run(&mut cont, "a b c"),
        message(ZiaError::AmbiguousExpression)
    );
}

#[test]
fn unknown_syntax_is_no_program() {
    let mut cont = Context::new();
    assert_eq!(run(&mut cont, "a b"), message(ZiaError::NotAProgram));
    assert_eq!(run(&mut cont, "a"), message(ZiaError::NotAProgram));
}

#[test]
fn built_in_symbols_print_themselves() {
    let mut cont = Context::new();
    assert_eq!(run(&mut cont, "-> ->"), "->");
    assert_eq!(run(&mut cont, ":= :="), ":=");
}

#[test]
fn unbalanced_parentheses_are_not_parsable() {
    assert!(!is_parsable("a) b"));
    assert!(is_parsable("a (-> b)"));
    assert!(is_parsable("((a b) c) ->"));
}
