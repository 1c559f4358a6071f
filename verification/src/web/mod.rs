pub mod graphql;
pub mod routes;
