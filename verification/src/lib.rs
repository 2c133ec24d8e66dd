//! Maximum matchings of unweighted bipartite graphs, by augmenting paths,
//! together with the small vote-reading front end that feeds it.

pub mod matching;
pub mod maximality;
pub mod search_order;
pub mod special_cases;
pub mod augmentation;
pub mod edge_set;
pub mod bipartite_matchings;
pub mod text;
pub mod voter_input;
pub mod cat_vs_dog;
