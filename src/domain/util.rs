pub mod group_liberties_aggregator;
