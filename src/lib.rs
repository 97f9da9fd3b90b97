//! Compiles path/operator/value directives such as `a.b:true` or `c.0.d=foobar`
//! into one JSON document.
pub mod composer;
pub mod directive;
pub mod escape;
pub mod node;
pub mod parser;
mod text;
pub mod unicode;
pub mod validator;

use crate::composer::{byte_views, compose, compose_spec, BuildError, BuildErrorModel};
use crate::directive::{directive_of_ast, Directive, DirectiveModel};
use crate::node::{ordered, Node, NodeModel};
use crate::parser::{directive_spec, parse_directive, SyntaxError};
use vstd::prelude::*;
use vstd::utf8::*;

verus! {

/// Parses one directive, its first character at position 1.
pub fn parse(input: &str) -> (r: Result<Directive, SyntaxError>)
    requires
        input@.len() < usize::MAX,
    ensures
        match r {
            Ok(d) => directive_spec(input@, 1) matches Ok(ast) && d@ == directive_of_ast(ast),
            Err(e) => directive_spec(input@, 1) == Err::<crate::parser::DirectiveAstModel, _>(e),
        },
{
    match parse_directive(1, input) {
        Ok((ast, _, _)) => Ok(Directive::from_ast(ast)),
        Err(e) => Err(e),
    }
}

/// The UTF-8 bytes of each text.
pub open spec fn encoded(texts: Seq<String>) -> Seq<Seq<u8>> {
    texts.map_values(|t: String| encode_utf8(t@))
}

fn bytes_of(s: &str) -> (r: Vec<u8>)
    ensures
        r@ == encode_utf8(s@),
{
    let b = s.as_bytes();
    let mut v: Vec<u8> = Vec::new();
    let mut i: usize = 0;
    while i < b.len()
        invariant
            i <= b@.len(),
            v@ == b@.take(i as int),
        decreases b@.len() - i,
    {
        v.push(b[i]);
        i = i + 1;
        assert(v@ =~= b@.take(i as int));
    }
    assert(b@.take(i as int) =~= b@);
    v
}

/// Composes one document from a batch of directives given as text.
pub fn transform(inputs: Vec<String>) -> (r: Result<Option<Node>, BuildError>)
    requires
        forall|i: int| 0 <= i < inputs@.len() ==> encode_utf8((#[trigger] inputs@[i])@).len() < usize::MAX,
    ensures
        match r {
            Ok(None) => compose_spec(encoded(inputs@)) == Ok::<_, BuildErrorModel>(None::<NodeModel>),
            Ok(Some(n)) => compose_spec(encoded(inputs@)) == Ok::<_, BuildErrorModel>(Some(n.model())),
            Err(e) => compose_spec(encoded(inputs@)) == Err::<Option<NodeModel>, _>(e@),
        },
        r matches Ok(Some(n)) ==> ordered(n.model()),
{
    let mut batch: Vec<Vec<u8>> = Vec::new();
    let mut i: usize = 0;
    while i < inputs.len()
        invariant
            i <= inputs@.len(),
            byte_views(batch@) == encoded(inputs@).take(i as int),
            forall|j: int| 0 <= j < batch@.len() ==> (#[trigger] batch@[j])@.len() < usize::MAX,
            forall|j: int| 0 <= j < inputs@.len() ==> encode_utf8((#[trigger] inputs@[j])@).len() < usize::MAX,
        decreases inputs@.len() - i,
    {
        let bytes = bytes_of(inputs[i].as_str());
        let ghost before = byte_views(batch@);
        batch.push(bytes);
        assert(byte_views(batch@) =~= before.push(bytes@));
        i = i + 1;
        assert(byte_views(batch@) =~= encoded(inputs@).take(i as int));
    }
    assert(encoded(inputs@).take(i as int) =~= encoded(inputs@));
    compose(batch)
}

} // verus!
