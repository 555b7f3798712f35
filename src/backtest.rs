use vstd::prelude::*;

verus! {

/// A finite run of quotes to replay, in order.
pub struct MyRange<T> {
    data: Vec<T>,
}

impl<T> View for MyRange<T> {
    type V = Seq<T>;

    closed spec fn view(&self) -> Seq<T> {
        self.data@
    }
}

impl<T> MyRange<T> {
    pub fn new(data: Vec<T>) -> (r: Self)
        ensures
            r@ == data@,
    {
        MyRange { data }
    }

    /// The quotes, in replay order.
    pub fn into_data(self) -> (r: Vec<T>)
        ensures
            r@ == self@,
    {
        self.data
    }
}

/// Receives each quote of a replay, in order.
pub trait QuoteHandler<T> {
    fn on_quote(&mut self, quote: &T);
}

} // verus!
