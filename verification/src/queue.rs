use vstd::prelude::*;

verus! {

/// A queue, named by the routing key under which frames reach it.
pub struct Queue {
    routing_key: String,
}

impl View for Queue {
    type V = Seq<char>;

    /// The routing key.
    closed spec fn view(&self) -> Seq<char> {
        self.routing_key@
    }
}

impl Queue {
    /// A queue whose routing key is `name`.
    pub fn new(name: String) -> (q: Queue)
        ensures
            q@ == name@,
    {
        Queue { routing_key: name }
    }

    /// The routing key of the queue.
    pub fn routing_key(&self) -> (k: &str)
        ensures
            k@ == self@,
    {
        self.routing_key.as_str()
    }
}

} // verus!
