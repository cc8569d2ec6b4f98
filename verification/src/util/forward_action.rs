//! What a rule does with a packet: a forwarding type and the ports it names.
use crate::util::text::{clone_texts, same_text, same_texts, texts};
use vstd::prelude::*;

verus! {

#[derive(Debug)]
pub struct ForwardAction {
    forward_type: String,
    ports: Vec<String>,
}

impl ForwardAction {
    /// The forwarding type.
    pub closed spec fn kind(&self) -> Seq<char> {
        self.forward_type@
    }

    /// The port names, in the order the rule declares them.
    pub closed spec fn port_names(&self) -> Seq<Seq<char>> {
        texts(self.ports@)
    }

    pub fn new(forward_type: String, ports: Vec<String>) -> (r: Self)
        ensures
            r.kind() == forward_type@,
            r.port_names() == texts(ports@),
    {
        ForwardAction { forward_type, ports }
    }

    pub fn get_forward_type(&self) -> (r: &String)
        ensures
            r@ == self.kind(),
    {
        &self.forward_type
    }

    pub fn get_ports(&self) -> (r: &Vec<String>)
        ensures
            texts(r@) == self.port_names(),
    {
        &self.ports
    }

    /// Whether two actions have the same type and the same ports in the same order.
    pub fn same_action(&self, other: &ForwardAction) -> (r: bool)
        ensures
            r == (self.kind() == other.kind() && self.port_names() == other.port_names()),
    {
        same_text(&self.forward_type, &other.forward_type) && same_texts(&self.ports, &other.ports)
    }
}

impl Clone for ForwardAction {
    fn clone(&self) -> (r: Self)
        ensures
            r.kind() == self.kind(),
            r.port_names() == self.port_names(),
    {
        ForwardAction { forward_type: self.forward_type.clone(), ports: clone_texts(&self.ports) }
    }
}

} // verus!
