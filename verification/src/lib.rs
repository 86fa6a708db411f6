//! Stroke Order's library: the text, storage, list and handwriting-template
//! logic of the app, with contracts checked by Verus.

pub mod chars;
pub mod hsk;
pub mod lists;
pub mod text;
pub mod url;
pub mod storage;
pub mod recognize;
pub mod speech;
pub mod history;
pub mod search;
